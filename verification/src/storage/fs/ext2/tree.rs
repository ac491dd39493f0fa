//! The blocks of a file as a tree, and what writing to a file does to it.

use crate::common::bytes::{bytes32, law_put_get32, patched, zeroes};
use crate::storage::fs::ext2::laws::{
    apart, law_stored_inode_reads_back, lemma_number_place, lemma_pick, per_group,
};
use crate::storage::fs::ext2::structs::{with_words, DiskInode};
use crate::storage::fs::ext2::volume::{
    bit, bitmap_of, blocks_written, content, counted, file_block_taken, follow, grown, inode_place,
    number_of, page_block, page_blocks, page_stored, path_of, pick, place_of, pointer, pointer_in,
    pointer_set, read_from, resolved, root_of, stored_inode, taken, with_bit, with_direct,
    with_root, with_stored, zeroed, Bitmap, Geometry, Volume,
};
use vstd::prelude::*;

verus! {

/// A block holds the descriptor of a group, or one of its bitmaps.
pub open spec fn serves_group(geo: Geometry, v: Volume, g: int, b: int) -> bool {
    ||| b == geo.group_block(g)
    ||| b == v.groups[g].block_bitmap
    ||| b == v.groups[g].inode_bitmap
}

/// A block holds an inode.
pub open spec fn holds_inode(geo: Geometry, v: Volume, num: u32, b: int) -> bool {
    inode_place(geo, v, num) matches Some((block, _)) && block == b
}

/// A block that the volume is managed by, and that no file may have.
pub open spec fn is_meta(geo: Geometry, v: Volume, b: int) -> bool {
    ||| b == geo.super_block()
    ||| exists|g: int| 0 <= g < v.groups.len() && #[trigger] serves_group(geo, v, g, b)
    ||| exists|num: u32| #[trigger] holds_inode(geo, v, num, b)
}

/// A bitmap says that a block or an inode is in use.
pub open spec fn marked(geo: Geometry, v: Volume, kind: Bitmap, number: int) -> bool {
    let (g, i) = place_of(geo, kind, number);
    0 <= g < v.groups.len() && bit(v.blocks[bitmap_of(v.groups[g], kind) as int], i)
}

pub open spec fn in_use(geo: Geometry, v: Volume, b: int) -> bool {
    marked(geo, v, Bitmap::Blocks, b)
}

/// A bitmap of a group is a block of its own, and what it holds beyond what it
/// keeps account of is set.
pub open spec fn own_bitmap(geo: Geometry, v: Volume, kind: Bitmap, g: int) -> bool {
    let m = bitmap_of(v.groups[g], kind) as int;
    &&& 0 < m < v.blocks.len()
    &&& m != geo.super_block()
    &&& forall|h: int| 0 <= h < v.groups.len() ==> m != #[trigger] geo.group_block(h)
    &&& forall|h: int, k: Bitmap|
        0 <= h < v.groups.len() && !(h == g && k == kind) ==> m != #[trigger] bitmap_of(
            v.groups[h],
            k,
        )
    &&& forall|i: int|
        per_group(geo, kind) <= i < 8 * geo.bs() ==> #[trigger] bit(v.blocks[m], i)
}

/// The inodes lie in blocks that hold nothing else that the volume is managed
/// by.
pub open spec fn own_inode_block(geo: Geometry, v: Volume, num: u32) -> bool {
    inode_place(geo, v, num) matches Some((b, at)) ==> {
        &&& 0 < b
        &&& at + 128 <= geo.bs()
        &&& b != geo.super_block()
        &&& forall|h: int| 0 <= h < v.groups.len() ==> b != #[trigger] geo.group_block(h)
        &&& forall|h: int, k: Bitmap|
            0 <= h < v.groups.len() ==> b != #[trigger] bitmap_of(v.groups[h], k)
    }
}

/// Two inodes do not overlap.
pub open spec fn inodes_apart(geo: Geometry, v: Volume, m: u32, n: u32) -> bool {
    match (inode_place(geo, v, m), inode_place(geo, v, n)) {
        (Some((b, at)), Some((c, there))) => b != c || apart(at, there, 128),
        _ => true,
    }
}

/// The volume is laid out as a volume should be: its parts do not overlap, and
/// the bitmaps know of them.
pub open spec fn laid_out(geo: Geometry, v: Volume) -> bool {
    &&& v.wf(geo)
    &&& forall|g: int, kind: Bitmap|
        0 <= g < v.groups.len() ==> #[trigger] own_bitmap(geo, v, kind, g)
    &&& forall|num: u32| #[trigger] own_inode_block(geo, v, num)
    &&& forall|m: u32, n: u32| m != n ==> #[trigger] inodes_apart(geo, v, m, n)
    &&& forall|b: int| #[trigger] is_meta(geo, v, b) ==> in_use(geo, v, b)
}

/// Two volumes have their parts in the same places.
pub open spec fn same_layout(v: Volume, w: Volume) -> bool {
    &&& w.blocks.len() == v.blocks.len()
    &&& w.groups.len() == v.groups.len()
    &&& forall|g: int|
        0 <= g < v.groups.len() ==> {
            &&& (#[trigger] w.groups[g]).block_bitmap == v.groups[g].block_bitmap
            &&& w.groups[g].inode_bitmap == v.groups[g].inode_bitmap
            &&& w.groups[g].inode_table == v.groups[g].inode_table
        }
}

pub proof fn lemma_same_layout(geo: Geometry, v: Volume, w: Volume)
    requires
        geo.wf(),
        same_layout(v, w),
    ensures
        forall|b: int| #[trigger] is_meta(geo, w, b) == is_meta(geo, v, b),
        forall|num: u32| #[trigger] inode_place(geo, w, num) == inode_place(geo, v, num),
{
    assert forall|num: u32| #[trigger] inode_place(geo, w, num) == inode_place(geo, v, num) by {
        if num != 0 {
            let group = (num - 1) / (geo.inodes_per_group as int);
            assert(group >= 0) by (nonlinear_arith)
                requires
                    num >= 1,
                    geo.inodes_per_group > 0,
                    group == (num - 1) / (geo.inodes_per_group as int),
            ;
            if group < v.groups.len() {
                assert(w.groups[group].inode_table == v.groups[group].inode_table);
            }
        }
    }
    assert forall|b: int| #[trigger] is_meta(geo, w, b) == is_meta(geo, v, b) by {
        assert forall|g: int| 0 <= g < v.groups.len() implies #[trigger] serves_group(geo, w, g, b)
            == serves_group(geo, v, g, b) by {
            assert(w.groups[g].block_bitmap == v.groups[g].block_bitmap);
        }
        assert forall|num: u32| #[trigger] holds_inode(geo, w, num, b) == holds_inode(
            geo,
            v,
            num,
            b,
        ) by {
            assert(inode_place(geo, w, num) == inode_place(geo, v, num));
        }
        if is_meta(geo, v, b) {
            if exists|g: int| 0 <= g < v.groups.len() && #[trigger] serves_group(geo, v, g, b) {
                let g = choose|g: int|
                    0 <= g < v.groups.len() && #[trigger] serves_group(geo, v, g, b);
                assert(serves_group(geo, w, g, b));
            }
            if exists|num: u32| #[trigger] holds_inode(geo, v, num, b) {
                let num = choose|num: u32| #[trigger] holds_inode(geo, v, num, b);
                assert(holds_inode(geo, w, num, b));
            }
        }
    }
}

proof fn lemma_bit_set(data: Seq<u8>, i: int, j: int)
    requires
        0 <= i < 8 * data.len(),
        0 <= j < 8 * data.len(),
    ensures
        bit(with_bit(data, i), j) == (bit(data, j) || i == j),
        with_bit(data, i).len() == data.len(),
{
    let x = data[i / 8];
    let s = (i % 8) as u8;
    let t = (j % 8) as u8;
    assert((x | (1u8 << s)) & (1u8 << t) != 0 <==> (x & (1u8 << t) != 0 || s == t)) by (bit_vector)
        requires
            s < 8,
            t < 8,
    ;
}

pub proof fn lemma_same_bitmap(v: Volume, w: Volume, g: int, kind: Bitmap)
    requires
        same_layout(v, w),
        0 <= g < v.groups.len(),
    ensures
        bitmap_of(w.groups[g], kind) == bitmap_of(v.groups[g], kind),
{
    assert(w.groups[g].block_bitmap == v.groups[g].block_bitmap);
}

/// A volume with its parts in the same places is laid out as well, if its
/// bitmaps mark no less.
pub proof fn lemma_layout_from(geo: Geometry, v: Volume, w: Volume)
    requires
        laid_out(geo, v),
        same_layout(v, w),
        forall|i: int| 0 <= i < w.blocks.len() ==> (#[trigger] w.blocks[i]).len() == geo.bs(),
        forall|g: int, kind: Bitmap, i: int|
            #![trigger bit(w.blocks[bitmap_of(v.groups[g], kind) as int], i)]
            0 <= g < v.groups.len() && 0 <= i < 8 * geo.bs() && bit(
                v.blocks[bitmap_of(v.groups[g], kind) as int],
                i,
            ) ==> bit(w.blocks[bitmap_of(v.groups[g], kind) as int], i),
    ensures
        laid_out(geo, w),
        forall|kind: Bitmap, n: int| #[trigger] marked(geo, v, kind, n) ==> marked(geo, w, kind, n),
{
    lemma_same_layout(geo, v, w);
    assert forall|kind: Bitmap, n: int| #[trigger] marked(geo, v, kind, n) implies marked(
        geo,
        w,
        kind,
        n,
    ) by {
        let (g, i) = place_of(geo, kind, n);
        lemma_same_bitmap(v, w, g, kind);
        let per = per_group(geo, kind);
        assert(0 <= i < per) by {
            match kind {
                Bitmap::Blocks => {
                    vstd::arithmetic::div_mod::lemma_mod_bound(n - geo.first_data_block(), per);
                },
                Bitmap::Inodes => {
                    vstd::arithmetic::div_mod::lemma_mod_bound(n - 1, per);
                },
            }
        }
        assert(bit(w.blocks[bitmap_of(v.groups[g], kind) as int], i));
    }
    assert forall|g: int, kind: Bitmap| 0 <= g < w.groups.len() implies #[trigger] own_bitmap(
        geo,
        w,
        kind,
        g,
    ) by {
        assert(own_bitmap(geo, v, kind, g));
        lemma_same_bitmap(v, w, g, kind);
        let m = bitmap_of(w.groups[g], kind) as int;
        assert forall|h: int, k: Bitmap|
            0 <= h < w.groups.len() && !(h == g && k == kind) implies m != #[trigger] bitmap_of(
            w.groups[h],
            k,
        ) by {
            lemma_same_bitmap(v, w, h, k);
            assert(m != bitmap_of(v.groups[h], k));
        }
        assert forall|i: int| per_group(geo, kind) <= i < 8 * geo.bs() implies #[trigger] bit(
            w.blocks[m],
            i,
        ) by {
            assert(bit(v.blocks[m], i));
            assert(bit(w.blocks[bitmap_of(v.groups[g], kind) as int], i));
        }
    }
    assert forall|num: u32| #[trigger] own_inode_block(geo, w, num) by {
        assert(own_inode_block(geo, v, num));
        if let Some((b, _)) = inode_place(geo, w, num) {
            assert forall|h: int, k: Bitmap| 0 <= h < w.groups.len() implies b
                != #[trigger] bitmap_of(w.groups[h], k) by {
                lemma_same_bitmap(v, w, h, k);
                assert(b != bitmap_of(v.groups[h], k));
            }
        }
    }
    assert forall|m: u32, n: u32| m != n implies #[trigger] inodes_apart(geo, w, m, n) by {
        assert(inodes_apart(geo, v, m, n));
        assert(inode_place(geo, w, m) == inode_place(geo, v, m));
        assert(inode_place(geo, w, n) == inode_place(geo, v, n));
    }
    assert forall|b: int| #[trigger] is_meta(geo, w, b) implies in_use(geo, w, b) by {
        assert(is_meta(geo, v, b));
        assert(in_use(geo, v, b));
        assert(marked(geo, v, Bitmap::Blocks, b));
    }
}

/// A change that leaves the bitmaps alone keeps the layout sound.
proof fn lemma_layout_kept(geo: Geometry, v: Volume, w: Volume)
    requires
        laid_out(geo, v),
        same_layout(v, w),
        forall|i: int| 0 <= i < w.blocks.len() ==> (#[trigger] w.blocks[i]).len() == geo.bs(),
        forall|g: int, kind: Bitmap|
            0 <= g < v.groups.len() ==> w.blocks[#[trigger] bitmap_of(v.groups[g], kind) as int]
                == v.blocks[bitmap_of(v.groups[g], kind) as int],
    ensures
        laid_out(geo, w),
        forall|kind: Bitmap, n: int| #[trigger] marked(geo, w, kind, n) == marked(geo, v, kind, n),
        forall|b: int| #[trigger] in_use(geo, w, b) == in_use(geo, v, b),
{
    lemma_layout_from(geo, v, w);
    assert forall|kind: Bitmap, n: int| #[trigger] marked(geo, w, kind, n) == marked(
        geo,
        v,
        kind,
        n,
    ) by {
        let (g, i) = place_of(geo, kind, n);
        if 0 <= g < v.groups.len() {
            lemma_same_bitmap(v, w, g, kind);
            assert(w.blocks[bitmap_of(v.groups[g], kind) as int]
                == v.blocks[bitmap_of(v.groups[g], kind) as int]);
        }
    }
    assert forall|b: int| #[trigger] in_use(geo, w, b) == in_use(geo, v, b) by {
        assert(marked(geo, w, Bitmap::Blocks, b) == marked(geo, v, Bitmap::Blocks, b));
    }
}

/// What is taken was free, and nothing that any file could have changes by it.
#[verifier::rlimit(40)]
pub proof fn lemma_taken_kind(geo: Geometry, v: Volume, kind: Bitmap, is_dir: bool)
    requires
        laid_out(geo, v),
        taken(geo, v, kind, is_dir).0 is Some,
    ensures
        ({
            let (number, after) = taken(geo, v, kind, is_dir);
            let n = number->0 as int;
            &&& laid_out(geo, after)
            &&& same_layout(v, after)
            &&& !marked(geo, v, kind, n)
            &&& marked(geo, after, kind, n)
            &&& n >= number_of(geo, kind, 0, 0)
            &&& forall|k: Bitmap, x: int| #[trigger] marked(geo, v, k, x) ==> marked(geo, after, k, x)
            &&& forall|x: int| #[trigger] is_meta(geo, after, x) == is_meta(geo, v, x)
            &&& forall|x: int|
                0 <= x < v.blocks.len() && !is_meta(geo, v, x) ==> #[trigger] after.blocks[x]
                    == v.blocks[x]
            &&& forall|num: u32| #[trigger]
                stored_inode(geo, after, num) == stored_inode(geo, v, num)
        }),
{
    let (number, after) = taken(geo, v, kind, is_dir);
    let n = number->0 as int;
    lemma_pick(geo, v, kind, 0);
    let (g, i) = (pick(geo, v, kind, 0)->Ok_0)->0;
    let m = bitmap_of(v.groups[g], kind) as int;
    assert(own_bitmap(geo, v, kind, g));
    let data = v.blocks[m];
    assert(content(geo, v, m) == Some(data));
    assert(data.len() == geo.bs());
    assert(i < per_group(geo, kind)) by {
        if i >= per_group(geo, kind) {
            assert(bit(v.blocks[m], i));
        }
    }
    lemma_number_place(geo, v, kind, g, i);
    assert(n == number_of(geo, kind, g, i));
    assert(place_of(geo, kind, n) == (g, i));
    let per = per_group(geo, kind);
    assert(0 <= g * per) by (nonlinear_arith)
        requires
            0 <= g,
            0 < per,
    ;
    let table = geo.group_block(g);
    let sb = geo.super_block();
    reveal(with_words);
    assert(after.blocks.len() == v.blocks.len());
    assert(serves_group(geo, v, g, table));
    assert(serves_group(geo, v, g, m));
    assert forall|x: int|
        0 <= x < v.blocks.len() && !is_meta(geo, v, x) implies #[trigger] after.blocks[x]
        == v.blocks[x] by {
        assert(x != table && x != m && x != sb);
    }
    assert(same_layout(v, after)) by {
        assert forall|h: int| 0 <= h < v.groups.len() implies (#[trigger] after.groups[h]
            ).block_bitmap == v.groups[h].block_bitmap && after.groups[h].inode_bitmap
            == v.groups[h].inode_bitmap && after.groups[h].inode_table
            == v.groups[h].inode_table by {}
    }
    lemma_same_layout(geo, v, after);
    assert(after.blocks[m] == with_bit(data, i)) by {
        assert(m != table);
    }
    assert forall|h: int, k: Bitmap, j: int|
        #![trigger bit(after.blocks[bitmap_of(v.groups[h], k) as int], j)]
        0 <= h < v.groups.len() && 0 <= j < 8 * geo.bs() && bit(
            v.blocks[bitmap_of(v.groups[h], k) as int],
            j,
        ) implies bit(after.blocks[bitmap_of(v.groups[h], k) as int], j) by {
        assert(own_bitmap(geo, v, k, h));
        if h == g && k == kind {
            lemma_bit_set(data, i, j);
        } else {
            assert(m != bitmap_of(v.groups[h], k));
            assert(bitmap_of(v.groups[h], k) != geo.group_block(g));
        }
    }
    assert forall|x: int| 0 <= x < after.blocks.len() implies (#[trigger] after.blocks[x]).len()
        == geo.bs() by {
        assert(v.blocks[x].len() == geo.bs());
    }
    lemma_layout_from(geo, v, after);
    assert forall|num: u32| #[trigger] stored_inode(geo, after, num) == stored_inode(
        geo,
        v,
        num,
    ) by {
        assert(own_inode_block(geo, v, num));
        assert(inode_place(geo, after, num) == inode_place(geo, v, num));
        if let Some((x, _)) = inode_place(geo, v, num) {
            assert(x != geo.group_block(g));
            assert(x != bitmap_of(v.groups[g], kind));
        }
    }
    assert(marked(geo, after, kind, n)) by {
        lemma_same_bitmap(v, after, g, kind);
        lemma_bit_set(data, i, i);
    }
}

/// A block that is taken is one that no file had.
pub proof fn lemma_taken(geo: Geometry, v: Volume)
    requires
        laid_out(geo, v),
        taken(geo, v, Bitmap::Blocks, false).0 is Some,
    ensures
        ({
            let (block, after) = taken(geo, v, Bitmap::Blocks, false);
            let b = block->0 as int;
            &&& b != 0
            &&& laid_out(geo, after)
            &&& same_layout(v, after)
            &&& !in_use(geo, v, b)
            &&& !is_meta(geo, v, b)
            &&& in_use(geo, after, b)
            &&& forall|x: int| #[trigger] in_use(geo, v, x) ==> in_use(geo, after, x)
            &&& forall|x: int| #[trigger] is_meta(geo, after, x) == is_meta(geo, v, x)
            &&& forall|x: int|
                0 <= x < v.blocks.len() && !is_meta(geo, v, x) ==> #[trigger] after.blocks[x]
                    == v.blocks[x]
            &&& forall|num: u32| #[trigger]
                stored_inode(geo, after, num) == stored_inode(geo, v, num)
        }),
{
    let (block, after) = taken(geo, v, Bitmap::Blocks, false);
    let b = block->0 as int;
    lemma_taken_kind(geo, v, Bitmap::Blocks, false);
    assert forall|x: int| #[trigger] in_use(geo, v, x) implies in_use(geo, after, x) by {
        assert(marked(geo, v, Bitmap::Blocks, x));
    }
    assert(!is_meta(geo, v, b)) by {
        if is_meta(geo, v, b) {
            assert(in_use(geo, v, b));
        }
    }
    assert(b != 0) by {
        if b == 0 {
            assert(is_meta(geo, v, geo.super_block()));
        }
    }
}

/// The pointer at an index of a block of pointers; below a hole there are only
/// holes.
pub open spec fn below(geo: Geometry, v: Volume, table: Option<u32>, index: int) -> Option<u32> {
    match table {
        None => None,
        Some(table) => if table == 0 {
            Some(0)
        } else {
            match content(geo, v, table as int) {
                Some(data) => Some(pointer(data, index)),
                None => None,
            }
        },
    }
}

/// The block at a place of a file's tree. A place is a direct block, at depth
/// zero, or what a path leads to from the root of one of the three trees of
/// pointers.
pub open spec fn node(
    geo: Geometry,
    v: Volume,
    inode: DiskInode,
    depth: nat,
    path: Seq<int>,
) -> Option<u32>
    decreases path.len(),
{
    if depth == 0 {
        Some(inode.data.direct[path[0]])
    } else if path.len() == 0 {
        Some(root_of(inode, depth))
    } else {
        below(geo, v, node(geo, v, inode, depth, path.drop_last()), path.last())
    }
}

pub open spec fn is_place(geo: Geometry, depth: nat, path: Seq<int>) -> bool {
    if depth == 0 {
        path.len() == 1 && 0 <= path[0] < 12
    } else {
        &&& depth <= 3
        &&& path.len() <= depth
        &&& forall|i: int| 0 <= i < path.len() ==> 0 <= #[trigger] path[i] < geo.pointers()
    }
}

/// A place for data, not for pointers.
pub open spec fn is_leaf(depth: nat, path: Seq<int>) -> bool {
    depth == 0 || path.len() == depth
}

/// A block that a file can have: it exists, is in use, and nothing that the
/// volume is managed by is in it.
pub open spec fn is_file_block(geo: Geometry, v: Volume, b: int) -> bool {
    &&& 0 < b < v.blocks.len()
    &&& !is_meta(geo, v, b)
    &&& in_use(geo, v, b)
}

/// The tree of a file is sound: its blocks are such as a file can have, and no
/// block stands at two places.
pub open spec fn sound_file(geo: Geometry, v: Volume, inode: DiskInode) -> bool {
    &&& forall|depth: nat, path: Seq<int>|
        is_place(geo, depth, path) ==> (#[trigger] node(geo, v, inode, depth, path)) is Some && (
        node(geo, v, inode, depth, path)->0 != 0 ==> is_file_block(
            geo,
            v,
            node(geo, v, inode, depth, path)->0 as int,
        ))
    &&& forall|d1: nat, p1: Seq<int>, d2: nat, p2: Seq<int>|
        {
            &&& is_place(geo, d1, p1)
            &&& is_place(geo, d2, p2)
            &&& #[trigger] node(geo, v, inode, d1, p1) == #[trigger] node(geo, v, inode, d2, p2)
            &&& node(geo, v, inode, d1, p1) != Some(0u32)
        } ==> d1 == d2 && p1 == p2
}

/// No place of the file has the block.
pub open spec fn is_apart(geo: Geometry, v: Volume, inode: DiskInode, b: u32) -> bool {
    forall|depth: nat, path: Seq<int>|
        is_place(geo, depth, path) ==> #[trigger] node(geo, v, inode, depth, path) != Some(b)
}

/// The tree after a block has been put at a place where there was none.
pub open spec fn linked(
    geo: Geometry,
    v: Volume,
    inode: DiskInode,
    w: Volume,
    kept: DiskInode,
    depth: nat,
    path: Seq<int>,
    b: u32,
) -> bool {
    forall|d: nat, p: Seq<int>|
        is_place(geo, d, p) ==> #[trigger] node(geo, w, kept, d, p) == if d == depth && p == path {
            Some(b)
        } else {
            node(geo, v, inode, d, p)
        }
}

pub proof fn lemma_parent(geo: Geometry, depth: nat, path: Seq<int>)
    requires
        is_place(geo, depth, path),
        depth > 0,
        path.len() > 0,
    ensures
        is_place(geo, depth, path.drop_last()),
        0 <= path.last() < geo.pointers(),
        path == path.drop_last().push(path.last()),
{
    assert(path =~= path.drop_last().push(path.last()));
    assert forall|i: int| 0 <= i < path.drop_last().len() implies 0
        <= #[trigger] path.drop_last()[i] < geo.pointers() by {
        assert(path[i] == path.drop_last()[i]);
    }
    assert(path.last() == path[path.len() - 1]);
}

/// The direct blocks and the roots of `kept` are those of `inode`, but for the
/// block at one place.
pub open spec fn heads_linked(
    inode: DiskInode,
    kept: DiskInode,
    depth: nat,
    path: Seq<int>,
    b: u32,
) -> bool {
    &&& forall|i: int|
        0 <= i < 12 ==> #[trigger] kept.data.direct[i] == if depth == 0 && path == seq![i] {
            b
        } else {
            inode.data.direct[i]
        }
    &&& forall|d: nat|
        1 <= d <= 3 ==> #[trigger] root_of(kept, d) == if d == depth && path.len() == 0 {
            b
        } else {
            root_of(inode, d)
        }
}

/// The blocks of pointers in `w` are those in `v`, but for the pointer to one
/// place.
pub open spec fn tables_linked(
    geo: Geometry,
    v: Volume,
    inode: DiskInode,
    w: Volume,
    depth: nat,
    path: Seq<int>,
    b: u32,
) -> bool {
    forall|d: nat, q: Seq<int>, k: int|
        {
            &&& is_place(geo, d, q)
            &&& q.len() < d
            &&& 0 <= k < geo.pointers()
            &&& node(geo, v, inode, d, q) != Some(0u32)
        } ==> #[trigger] below(geo, w, node(geo, v, inode, d, q), k) == if d == depth && q.push(k)
            == path {
            Some(b)
        } else {
            below(geo, v, node(geo, v, inode, d, q), k)
        }
}

proof fn lemma_linked_at(
    geo: Geometry,
    v: Volume,
    inode: DiskInode,
    w: Volume,
    kept: DiskInode,
    depth: nat,
    path: Seq<int>,
    b: u32,
    d: nat,
    p: Seq<int>,
)
    requires
        is_place(geo, depth, path),
        is_place(geo, d, p),
        node(geo, v, inode, depth, path) == Some(0u32),
        depth > 0 && path.len() > 0 ==> node(geo, v, inode, depth, path.drop_last()) != Some(0u32),
        b != 0,
        heads_linked(inode, kept, depth, path, b),
        tables_linked(geo, v, inode, w, depth, path, b),
        !is_leaf(depth, path) ==> forall|k: int|
            0 <= k < geo.pointers() ==> #[trigger] below(geo, w, Some(b), k) == Some(0u32),
    ensures
        node(geo, w, kept, d, p) == if d == depth && p == path {
            Some(b)
        } else {
            node(geo, v, inode, d, p)
        },
    decreases p.len(),
{
    if d == 0 {
        assert(p =~= seq![p[0]]);
        assert(kept.data.direct[p[0]] == if depth == 0 && path == seq![p[0]] {
            b
        } else {
            inode.data.direct[p[0]]
        });
    } else if p.len() == 0 {
        assert(root_of(kept, d) == if d == depth && path.len() == 0 {
            b
        } else {
            root_of(inode, d)
        });
        if d == depth && path.len() == 0 {
            assert(p =~= path);
        }
    } else {
        lemma_parent(geo, d, p);
        let q = p.drop_last();
        let k = p.last();
        lemma_linked_at(geo, v, inode, w, kept, depth, path, b, d, q);
        if d == depth && q == path {
            assert(!is_leaf(depth, path));
            assert(below(geo, w, Some(b), k) == Some(0u32));
            assert(p != path);
        } else if node(geo, v, inode, d, q) == Some(0u32) {
            assert(!(d == depth && p == path));
        } else {
            assert(below(geo, w, node(geo, v, inode, d, q), k) == if d == depth && q.push(k)
                == path {
                Some(b)
            } else {
                below(geo, v, node(geo, v, inode, d, q), k)
            });
        }
    }
}

/// A file stays sound when it gets a block that it did not have.
proof fn lemma_sound_linked(
    geo: Geometry,
    v: Volume,
    inode: DiskInode,
    w: Volume,
    kept: DiskInode,
    depth: nat,
    path: Seq<int>,
    b: u32,
)
    requires
        sound_file(geo, v, inode),
        linked(geo, v, inode, w, kept, depth, path, b),
        is_apart(geo, v, inode, b),
        is_file_block(geo, w, b as int),
        w.blocks.len() == v.blocks.len(),
        forall|x: int| #[trigger] is_meta(geo, w, x) == is_meta(geo, v, x),
        forall|x: int| #[trigger] in_use(geo, v, x) ==> in_use(geo, w, x),
    ensures
        sound_file(geo, w, kept),
{
    assert forall|d: nat, p: Seq<int>| is_place(geo, d, p) implies (#[trigger] node(
        geo,
        w,
        kept,
        d,
        p,
    )) is Some && (node(geo, w, kept, d, p)->0 != 0 ==> is_file_block(
        geo,
        w,
        node(geo, w, kept, d, p)->0 as int,
    )) by {
        assert(node(geo, v, inode, d, p) is Some);
        let x = node(geo, v, inode, d, p)->0 as int;
        if x != 0 {
            assert(is_file_block(geo, v, x));
            assert(in_use(geo, v, x));
            assert(is_meta(geo, w, x) == is_meta(geo, v, x));
        }
    }
    assert forall|d1: nat, p1: Seq<int>, d2: nat, p2: Seq<int>|
        {
            &&& is_place(geo, d1, p1)
            &&& is_place(geo, d2, p2)
            &&& #[trigger] node(geo, w, kept, d1, p1) == #[trigger] node(geo, w, kept, d2, p2)
            &&& node(geo, w, kept, d1, p1) != Some(0u32)
        } implies d1 == d2 && p1 == p2 by {
        assert(node(geo, v, inode, d1, p1) != Some(b));
        assert(node(geo, v, inode, d2, p2) != Some(b));
    }
}

/// The tree is the same where its blocks of pointers are.
pub proof fn lemma_same_tree(geo: Geometry, v: Volume, w: Volume, inode: DiskInode)
    requires
        sound_file(geo, v, inode),
        w.blocks.len() == v.blocks.len(),
        forall|d: nat, q: Seq<int>|
            is_place(geo, d, q) && !is_leaf(d, q) && (#[trigger] node(geo, v, inode, d, q)) != Some(
                0u32,
            ) ==> w.blocks[node(geo, v, inode, d, q)->0 as int] == v.blocks[node(
                geo,
                v,
                inode,
                d,
                q,
            )->0 as int],
    ensures
        forall|d: nat, p: Seq<int>|
            is_place(geo, d, p) ==> #[trigger] node(geo, w, inode, d, p) == node(
                geo,
                v,
                inode,
                d,
                p,
            ),
{
    assert forall|d: nat, p: Seq<int>| is_place(geo, d, p) implies #[trigger] node(
        geo,
        w,
        inode,
        d,
        p,
    ) == node(geo, v, inode, d, p) by {
        lemma_same_tree_at(geo, v, w, inode, d, p);
    }
}

proof fn lemma_same_tree_at(
    geo: Geometry,
    v: Volume,
    w: Volume,
    inode: DiskInode,
    d: nat,
    p: Seq<int>,
)
    requires
        sound_file(geo, v, inode),
        is_place(geo, d, p),
        w.blocks.len() == v.blocks.len(),
        forall|d: nat, q: Seq<int>|
            is_place(geo, d, q) && !is_leaf(d, q) && (#[trigger] node(geo, v, inode, d, q)) != Some(
                0u32,
            ) ==> w.blocks[node(geo, v, inode, d, q)->0 as int] == v.blocks[node(
                geo,
                v,
                inode,
                d,
                q,
            )->0 as int],
    ensures
        node(geo, w, inode, d, p) == node(geo, v, inode, d, p),
    decreases p.len(),
{
    if d > 0 && p.len() > 0 {
        lemma_parent(geo, d, p);
        let q = p.drop_last();
        lemma_same_tree_at(geo, v, w, inode, d, q);
        assert(!is_leaf(d, q));
    }
}

/// What changes no block that a file could have keeps the file sound.
proof fn lemma_sound_kept(geo: Geometry, v: Volume, w: Volume, inode: DiskInode)
    requires
        sound_file(geo, v, inode),
        w.blocks.len() == v.blocks.len(),
        forall|d: nat, p: Seq<int>|
            is_place(geo, d, p) ==> #[trigger] node(geo, w, inode, d, p) == node(
                geo,
                v,
                inode,
                d,
                p,
            ),
        forall|x: int| #[trigger] is_meta(geo, w, x) == is_meta(geo, v, x),
        forall|x: int| #[trigger] in_use(geo, v, x) ==> in_use(geo, w, x),
    ensures
        sound_file(geo, w, inode),
{
    assert forall|d: nat, p: Seq<int>| is_place(geo, d, p) implies (#[trigger] node(
        geo,
        w,
        inode,
        d,
        p,
    )) is Some && (node(geo, w, inode, d, p)->0 != 0 ==> is_file_block(
        geo,
        w,
        node(geo, w, inode, d, p)->0 as int,
    )) by {
        assert(node(geo, v, inode, d, p) is Some);
        let x = node(geo, v, inode, d, p)->0 as int;
        if x != 0 {
            assert(is_file_block(geo, v, x));
            assert(in_use(geo, v, x));
            assert(is_meta(geo, w, x) == is_meta(geo, v, x));
        }
    }
    assert forall|d1: nat, p1: Seq<int>, d2: nat, p2: Seq<int>|
        {
            &&& is_place(geo, d1, p1)
            &&& is_place(geo, d2, p2)
            &&& #[trigger] node(geo, w, inode, d1, p1) == #[trigger] node(geo, w, inode, d2, p2)
            &&& node(geo, w, inode, d1, p1) != Some(0u32)
        } implies d1 == d2 && p1 == p2 by {
        assert(node(geo, v, inode, d1, p1) == node(geo, v, inode, d2, p2));
    }
}

/// A file whose blocks are all as they were is sound if it was.
pub proof fn lemma_sound_after(geo: Geometry, v: Volume, w: Volume, inode: DiskInode)
    requires
        sound_file(geo, v, inode),
        same_layout(v, w),
        forall|x: int| #[trigger] is_meta(geo, w, x) == is_meta(geo, v, x),
        forall|x: int| #[trigger] in_use(geo, v, x) ==> in_use(geo, w, x),
        forall|x: int|
            #![trigger w.blocks[x]]
            is_file_block(geo, v, x) ==> w.blocks[x] == v.blocks[x],
    ensures
        sound_file(geo, w, inode),
{
    assert forall|d: nat, q: Seq<int>|
        is_place(geo, d, q) && !is_leaf(d, q) && (#[trigger] node(geo, v, inode, d, q)) != Some(
            0u32,
        ) implies w.blocks[node(geo, v, inode, d, q)->0 as int] == v.blocks[node(
        geo,
        v,
        inode,
        d,
        q,
    )->0 as int] by {
        assert(is_file_block(geo, v, node(geo, v, inode, d, q)->0 as int));
    }
    lemma_same_tree(geo, v, w, inode);
    lemma_sound_kept(geo, v, w, inode);
}

/// A file's tree does not change when a block is taken, and the block is not in
/// it.
proof fn lemma_tree_after_taking(geo: Geometry, v: Volume, inode: DiskInode)
    requires
        laid_out(geo, v),
        sound_file(geo, v, inode),
        taken(geo, v, Bitmap::Blocks, false).0 is Some,
    ensures
        ({
            let (block, after) = taken(geo, v, Bitmap::Blocks, false);
            &&& sound_file(geo, after, inode)
            &&& is_apart(geo, after, inode, block->0)
            &&& forall|d: nat, p: Seq<int>|
                is_place(geo, d, p) ==> #[trigger] node(geo, after, inode, d, p) == node(
                    geo,
                    v,
                    inode,
                    d,
                    p,
                )
        }),
{
    let (block, after) = taken(geo, v, Bitmap::Blocks, false);
    lemma_taken(geo, v);
    assert forall|d: nat, q: Seq<int>|
        is_place(geo, d, q) && !is_leaf(d, q) && (#[trigger] node(geo, v, inode, d, q)) != Some(
            0u32,
        ) implies after.blocks[node(geo, v, inode, d, q)->0 as int] == v.blocks[node(
        geo,
        v,
        inode,
        d,
        q,
    )->0 as int] by {
        assert(is_file_block(geo, v, node(geo, v, inode, d, q)->0 as int));
    }
    lemma_same_tree(geo, v, after, inode);
    lemma_sound_kept(geo, v, after, inode);
    assert forall|d: nat, p: Seq<int>| is_place(geo, d, p) implies #[trigger] node(
        geo,
        after,
        inode,
        d,
        p,
    ) != Some(block->0) by {
        assert(node(geo, after, inode, d, p) == node(geo, v, inode, d, p));
        if node(geo, v, inode, d, p) == Some(block->0) {
            assert(is_file_block(geo, v, block->0 as int));
        }
    }
}

/// Writing to a block that is no block of pointers of a file leaves the file's
/// tree as it was.
proof fn lemma_tree_after_writing(geo: Geometry, v: Volume, inode: DiskInode, b: u32, data: Seq<u8>)
    requires
        laid_out(geo, v),
        sound_file(geo, v, inode),
        0 < b < v.blocks.len(),
        !is_meta(geo, v, b as int),
        data.len() == geo.bs(),
        forall|d: nat, q: Seq<int>|
            is_place(geo, d, q) && !is_leaf(d, q) ==> #[trigger] node(geo, v, inode, d, q) != Some(
                b,
            ),
    ensures
        ({
            let w = v.with_block(b as int, data);
            &&& laid_out(geo, w)
            &&& same_layout(v, w)
            &&& sound_file(geo, w, inode)
            &&& forall|x: int| #[trigger] in_use(geo, w, x) == in_use(geo, v, x)
            &&& forall|x: int| #[trigger] is_meta(geo, w, x) == is_meta(geo, v, x)
            &&& forall|d: nat, p: Seq<int>|
                is_place(geo, d, p) ==> #[trigger] node(geo, w, inode, d, p) == node(
                    geo,
                    v,
                    inode,
                    d,
                    p,
                )
        }),
{
    let w = v.with_block(b as int, data);
    lemma_block_written(geo, v, b, data);
    lemma_same_tree(geo, v, w, inode);
    lemma_sound_kept(geo, v, w, inode);
}

/// Writing to a block that the volume is not managed by leaves the layout as it
/// was.
pub proof fn lemma_block_written(geo: Geometry, v: Volume, b: u32, data: Seq<u8>)
    requires
        laid_out(geo, v),
        0 < b < v.blocks.len(),
        !is_meta(geo, v, b as int),
        data.len() == geo.bs(),
    ensures
        ({
            let w = v.with_block(b as int, data);
            &&& laid_out(geo, w)
            &&& same_layout(v, w)
            &&& forall|x: int| #[trigger] in_use(geo, w, x) == in_use(geo, v, x)
            &&& forall|x: int| #[trigger] is_meta(geo, w, x) == is_meta(geo, v, x)
            &&& forall|num: u32| #[trigger]
                stored_inode(geo, w, num) == stored_inode(geo, v, num)
        }),
{
    let w = v.with_block(b as int, data);
    assert forall|num: u32| #[trigger] stored_inode(geo, w, num) == stored_inode(geo, v, num) by {
        if let Some((x, _)) = inode_place(geo, v, num) {
            assert(holds_inode(geo, v, num, x));
            assert(is_meta(geo, v, x));
        }
    }
    assert forall|g: int, kind: Bitmap| 0 <= g < v.groups.len() implies w.blocks[
    #[trigger] bitmap_of(v.groups[g], kind) as int] == v.blocks[bitmap_of(
        v.groups[g],
        kind,
    ) as int] by {
        assert(own_bitmap(geo, v, kind, g));
        assert(serves_group(geo, v, g, bitmap_of(v.groups[g], kind) as int));
    }
    lemma_layout_kept(geo, v, w);
    lemma_same_layout(geo, v, w);
}

pub proof fn lemma_pointer_patched(data: Seq<u8>, k: int, j: int, b: u32)
    requires
        0 <= k,
        0 <= j,
        4 * k + 4 <= data.len(),
        4 * j + 4 <= data.len(),
    ensures
        pointer(patched(data, 4 * k, bytes32(b)), j) == if j == k {
            b
        } else {
            pointer(data, j)
        },
{
    law_put_get32(data, 4 * k, b);
    let t = patched(data, 4 * k, bytes32(b));
    if j != k {
        assert(t[4 * j] == data[4 * j] && t[4 * j + 1] == data[4 * j + 1] && t[4 * j + 2]
            == data[4 * j + 2] && t[4 * j + 3] == data[4 * j + 3]);
    }
}

/// A pointer that is written into a block of pointers of the file, where there
/// was none, puts its block at that place and changes nothing else.
proof fn lemma_pointer_linked(
    geo: Geometry,
    v: Volume,
    inode: DiskInode,
    kept: DiskInode,
    depth: nat,
    path: Seq<int>,
    table: u32,
    b: u32,
)
    requires
        kept.data == inode.data,
        laid_out(geo, v),
        sound_file(geo, v, inode),
        is_place(geo, depth, path),
        depth > 0,
        path.len() > 0,
        node(geo, v, inode, depth, path.drop_last()) == Some(table),
        table != 0,
        node(geo, v, inode, depth, path) == Some(0u32),
        b != 0,
        is_apart(geo, v, inode, b),
        !is_leaf(depth, path) ==> b < v.blocks.len() && v.blocks[b as int] == zeroes(
            geo.bs() as nat,
        ),
    ensures
        ({
            let data = patched(v.blocks[table as int], 4 * path.last(), bytes32(b));
            let w = v.with_block(table as int, data);
            &&& pointer_set(geo, v, table, path.last(), b) matches Some((_, after)) && after == w
            &&& linked(geo, v, inode, w, kept, depth, path, b)
            &&& laid_out(geo, w)
            &&& same_layout(v, w)
            &&& forall|x: int| #[trigger] in_use(geo, w, x) == in_use(geo, v, x)
            &&& forall|x: int| #[trigger] is_meta(geo, w, x) == is_meta(geo, v, x)
        }),
{
    let k = path.last();
    let old = v.blocks[table as int];
    let data = patched(old, 4 * k, bytes32(b));
    let w = v.with_block(table as int, data);
    lemma_parent(geo, depth, path);
    assert(is_file_block(geo, v, table as int));
    lemma_block_written(geo, v, table, data);
    assert(node(geo, v, inode, depth, path.drop_last()) != Some(b));
    assert(4 * geo.pointers() == geo.bs());
    assert(tables_linked(geo, v, inode, w, depth, path, b)) by {
        assert forall|d: nat, q: Seq<int>, j: int|
            {
                &&& is_place(geo, d, q)
                &&& q.len() < d
                &&& 0 <= j < geo.pointers()
                &&& node(geo, v, inode, d, q) != Some(0u32)
            } implies #[trigger] below(geo, w, node(geo, v, inode, d, q), j) == if d == depth
            && q.push(j) == path {
            Some(b)
        } else {
            below(geo, v, node(geo, v, inode, d, q), j)
        } by {
            assert(node(geo, v, inode, d, q) is Some);
            let y = node(geo, v, inode, d, q)->0;
            assert(is_file_block(geo, v, y as int));
            if y == table {
                assert(d == depth && q == path.drop_last());
                lemma_pointer_patched(old, k, j, b);
                if q.push(j) == path {
                    assert(path.last() == j);
                }
            } else if d == depth && q.push(j) == path {
                assert(q =~= path.drop_last());
            }
        }
    }
    if !is_leaf(depth, path) {
        assert forall|j: int| 0 <= j < geo.pointers() implies #[trigger] below(
            geo,
            w,
            Some(b),
            j,
        ) == Some(0u32) by {
            assert(w.blocks[b as int] == v.blocks[b as int]);
        }
    }
    assert(heads_linked(inode, kept, depth, path, b));
    assert forall|d: nat, p: Seq<int>| is_place(geo, d, p) implies #[trigger] node(
        geo,
        w,
        kept,
        d,
        p,
    ) == if d == depth && p == path {
        Some(b)
    } else {
        node(geo, v, inode, d, p)
    } by {
        lemma_linked_at(geo, v, inode, w, kept, depth, path, b, d, p);
    }
}

/// A file got blocks that it did not have, for one of its data blocks: every
/// other block of it is where and what it was.
pub open spec fn grew(
    geo: Geometry,
    v: Volume,
    inode: DiskInode,
    w: Volume,
    kept: DiskInode,
    depth: nat,
    full: Seq<int>,
) -> bool {
    &&& laid_out(geo, w)
    &&& same_layout(v, w)
    &&& sound_file(geo, w, kept)
    &&& kept.size == inode.size
    &&& forall|x: int| #[trigger] in_use(geo, v, x) ==> in_use(geo, w, x)
    &&& forall|x: int| #[trigger] is_meta(geo, w, x) == is_meta(geo, v, x)
    &&& forall|d: nat, p: Seq<int>|
        is_place(geo, d, p) ==> (is_leaf(d, p) && !(d == depth && p == full)) || node(
            geo,
            v,
            inode,
            d,
            p,
        ) != Some(0u32) ==> #[trigger] node(geo, w, kept, d, p) == node(geo, v, inode, d, p)
    &&& forall|d: nat, p: Seq<int>|
        is_place(geo, d, p) && is_leaf(d, p) && (#[trigger] node(geo, v, inode, d, p)) != Some(0u32)
            ==> w.blocks[node(geo, v, inode, d, p)->0 as int] == v.blocks[node(
            geo,
            v,
            inode,
            d,
            p,
        )->0 as int]
}

proof fn lemma_grew_twice(
    geo: Geometry,
    v: Volume,
    inode: DiskInode,
    w: Volume,
    kept: DiskInode,
    u: Volume,
    end: DiskInode,
    depth: nat,
    full: Seq<int>,
)
    requires
        sound_file(geo, v, inode),
        grew(geo, v, inode, w, kept, depth, full),
        grew(geo, w, kept, u, end, depth, full),
    ensures
        grew(geo, v, inode, u, end, depth, full),
{
    assert(same_layout(v, u)) by {
        assert forall|g: int| 0 <= g < v.groups.len() implies (#[trigger] u.groups[g]).block_bitmap
            == v.groups[g].block_bitmap && u.groups[g].inode_bitmap == v.groups[g].inode_bitmap
            && u.groups[g].inode_table == v.groups[g].inode_table by {
            assert(w.groups[g].block_bitmap == v.groups[g].block_bitmap);
        }
    }
    assert forall|x: int| #[trigger] in_use(geo, v, x) implies in_use(geo, u, x) by {
        assert(in_use(geo, w, x));
    }
    assert forall|x: int| #[trigger] is_meta(geo, u, x) == is_meta(geo, v, x) by {
        assert(is_meta(geo, w, x) == is_meta(geo, v, x));
    }
    assert forall|d: nat, p: Seq<int>|
        is_place(geo, d, p) && ((is_leaf(d, p) && !(d == depth && p == full)) || node(
            geo,
            v,
            inode,
            d,
            p,
        ) != Some(0u32)) implies #[trigger] node(geo, u, end, d, p) == node(
        geo,
        v,
        inode,
        d,
        p,
    ) by {
        assert(node(geo, w, kept, d, p) == node(geo, v, inode, d, p));
    }
    assert forall|d: nat, p: Seq<int>|
        is_place(geo, d, p) && is_leaf(d, p) && (#[trigger] node(geo, v, inode, d, p)) != Some(
            0u32,
        ) implies u.blocks[node(geo, v, inode, d, p)->0 as int] == v.blocks[node(
        geo,
        v,
        inode,
        d,
        p,
    )->0 as int] by {
        assert(node(geo, w, kept, d, p) == node(geo, v, inode, d, p));
    }
}

/// What `linked` says, as a step of growth.
proof fn lemma_grew_by_link(
    geo: Geometry,
    v: Volume,
    inode: DiskInode,
    w: Volume,
    kept: DiskInode,
    depth: nat,
    path: Seq<int>,
    full: Seq<int>,
    b: u32,
)
    requires
        sound_file(geo, v, inode),
        laid_out(geo, w),
        same_layout(v, w),
        kept.size == inode.size,
        node(geo, v, inode, depth, path) == Some(0u32),
        linked(geo, v, inode, w, kept, depth, path, b),
        path == full || !is_leaf(depth, path),
        is_apart(geo, v, inode, b),
        is_file_block(geo, w, b as int),
        forall|x: int| #[trigger] in_use(geo, v, x) ==> in_use(geo, w, x),
        forall|x: int| #[trigger] is_meta(geo, w, x) == is_meta(geo, v, x),
        forall|d: nat, p: Seq<int>|
            is_place(geo, d, p) && is_leaf(d, p) && (#[trigger] node(geo, v, inode, d, p)) != Some(
                0u32,
            ) ==> w.blocks[node(geo, v, inode, d, p)->0 as int] == v.blocks[node(
                geo,
                v,
                inode,
                d,
                p,
            )->0 as int],
    ensures
        grew(geo, v, inode, w, kept, depth, full),
{
    lemma_sound_linked(geo, v, inode, w, kept, depth, path, b);
}

/// The block that is taken for a place, full of zeroes if it is for pointers.
pub open spec fn fresh_block(geo: Geometry, v: Volume, leaf: bool) -> (Option<u32>, Volume) {
    if leaf {
        taken(geo, v, Bitmap::Blocks, false)
    } else {
        zeroed(geo, v)
    }
}

/// A fresh block is none of the file's, and the file is as it was.
proof fn lemma_fresh(geo: Geometry, v: Volume, inode: DiskInode, leaf: bool)
    requires
        laid_out(geo, v),
        sound_file(geo, v, inode),
        fresh_block(geo, v, leaf).0 is Some,
        fresh_block(geo, v, leaf).0->0 < v.blocks.len(),
    ensures
        ({
            let (block, w) = fresh_block(geo, v, leaf);
            let b = block->0;
            &&& is_file_block(geo, w, b as int)
            &&& is_apart(geo, w, inode, b)
            &&& is_apart(geo, v, inode, b)
            &&& laid_out(geo, w)
            &&& same_layout(v, w)
            &&& sound_file(geo, w, inode)
            &&& !leaf ==> w.blocks[b as int] == zeroes(geo.bs() as nat)
            &&& forall|x: int| #[trigger] in_use(geo, v, x) ==> in_use(geo, w, x)
            &&& forall|x: int| #[trigger] is_meta(geo, w, x) == is_meta(geo, v, x)
            &&& forall|d: nat, p: Seq<int>|
                is_place(geo, d, p) ==> #[trigger] node(geo, w, inode, d, p) == node(
                    geo,
                    v,
                    inode,
                    d,
                    p,
                )
            &&& forall|d: nat, p: Seq<int>|
                is_place(geo, d, p) && (#[trigger] node(geo, v, inode, d, p)) != Some(0u32)
                    ==> w.blocks[node(geo, v, inode, d, p)->0 as int] == v.blocks[node(
                    geo,
                    v,
                    inode,
                    d,
                    p,
                )->0 as int]
        }),
{
    let (block, after) = taken(geo, v, Bitmap::Blocks, false);
    let b = block->0;
    let w = fresh_block(geo, v, leaf).1;
    lemma_taken(geo, v);
    lemma_tree_after_taking(geo, v, inode);
    assert(is_meta(geo, after, b as int) == is_meta(geo, v, b as int));
    if !leaf {
        lemma_tree_after_writing(geo, after, inode, b, zeroes(geo.bs() as nat));
        assert(in_use(geo, w, b as int) == in_use(geo, after, b as int));
        assert(is_meta(geo, w, b as int) == is_meta(geo, after, b as int));
        assert forall|x: int| #[trigger] in_use(geo, v, x) implies in_use(geo, w, x) by {
            assert(in_use(geo, after, x));
            assert(in_use(geo, w, x) == in_use(geo, after, x));
        }
        assert forall|x: int| #[trigger] is_meta(geo, w, x) == is_meta(geo, v, x) by {
            assert(is_meta(geo, after, x) == is_meta(geo, v, x));
        }
        assert forall|d: nat, p: Seq<int>| is_place(geo, d, p) implies #[trigger] node(
            geo,
            w,
            inode,
            d,
            p,
        ) == node(geo, v, inode, d, p) by {
            assert(node(geo, after, inode, d, p) == node(geo, v, inode, d, p));
        }
        assert(same_layout(v, w)) by {
            assert(w.groups == after.groups);
        }
    }
    assert forall|d: nat, p: Seq<int>| is_place(geo, d, p) implies #[trigger] node(
        geo,
        v,
        inode,
        d,
        p,
    ) != Some(b) by {
        assert(node(geo, after, inode, d, p) == node(geo, v, inode, d, p));
    }
    assert forall|d: nat, p: Seq<int>| is_place(geo, d, p) implies #[trigger] node(
        geo,
        w,
        inode,
        d,
        p,
    ) != Some(b) by {
        assert(node(geo, w, inode, d, p) == node(geo, v, inode, d, p));
    }
    assert forall|d: nat, p: Seq<int>|
        is_place(geo, d, p) && (#[trigger] node(geo, v, inode, d, p)) != Some(
            0u32,
        ) implies w.blocks[node(geo, v, inode, d, p)->0 as int] == v.blocks[node(
        geo,
        v,
        inode,
        d,
        p,
    )->0 as int] by {
        let x = node(geo, v, inode, d, p)->0 as int;
        assert(is_file_block(geo, v, x));
        assert(after.blocks[x] == v.blocks[x]);
        assert(x != b);
    }
}

/// A fresh block that is linked into a block of pointers makes the file grow.
proof fn lemma_step(
    geo: Geometry,
    v: Volume,
    inode: DiskInode,
    kept: DiskInode,
    depth: nat,
    path: Seq<int>,
    full: Seq<int>,
    table: u32,
)
    requires
        laid_out(geo, v),
        sound_file(geo, v, inode),
        kept.data == inode.data,
        kept.size == inode.size,
        is_place(geo, depth, path),
        path == full || !is_leaf(depth, path),
        depth > 0,
        path.len() > 0,
        node(geo, v, inode, depth, path.drop_last()) == Some(table),
        table != 0,
        node(geo, v, inode, depth, path) == Some(0u32),
        fresh_block(geo, v, is_leaf(depth, path)).0 is Some,
        fresh_block(geo, v, is_leaf(depth, path)).0->0 < v.blocks.len(),
    ensures
        ({
            let (block, after) = fresh_block(geo, v, is_leaf(depth, path));
            let b = block->0;
            &&& b != 0
            &&& pointer_set(geo, after, table, path.last(), b) matches Some((_, w)) && grew(
                geo,
                v,
                inode,
                w,
                kept,
                depth,
                full,
            ) && node(geo, w, kept, depth, path) == Some(b)
        }),
{
    let (block, after) = fresh_block(geo, v, is_leaf(depth, path));
    let b = block->0;
    lemma_fresh(geo, v, inode, is_leaf(depth, path));
    lemma_parent(geo, depth, path);
    assert(node(geo, after, inode, depth, path.drop_last()) == Some(table));
    assert(node(geo, after, inode, depth, path) == Some(0u32));
    lemma_pointer_linked(geo, after, inode, kept, depth, path, table, b);
    let w = after.with_block(
        table as int,
        patched(after.blocks[table as int], 4 * path.last(), bytes32(b)),
    );
    assert(linked(geo, v, inode, w, kept, depth, path, b)) by {
        assert forall|d: nat, p: Seq<int>| is_place(geo, d, p) implies #[trigger] node(
            geo,
            w,
            kept,
            d,
            p,
        ) == if d == depth && p == path {
            Some(b)
        } else {
            node(geo, v, inode, d, p)
        } by {
            assert(node(geo, after, inode, d, p) == node(geo, v, inode, d, p));
        }
    }
    assert(is_file_block(geo, w, b as int)) by {
        assert(is_meta(geo, w, b as int) == is_meta(geo, after, b as int));
        assert(in_use(geo, w, b as int) == in_use(geo, after, b as int));
    }
    assert forall|x: int| #[trigger] in_use(geo, v, x) implies in_use(geo, w, x) by {
        assert(in_use(geo, after, x));
        assert(in_use(geo, w, x) == in_use(geo, after, x));
    }
    assert forall|x: int| #[trigger] is_meta(geo, w, x) == is_meta(geo, v, x) by {
        assert(is_meta(geo, after, x) == is_meta(geo, v, x));
    }
    assert forall|d: nat, p: Seq<int>|
        is_place(geo, d, p) && is_leaf(d, p) && (#[trigger] node(geo, v, inode, d, p)) != Some(
            0u32,
        ) implies w.blocks[node(geo, v, inode, d, p)->0 as int] == v.blocks[node(
        geo,
        v,
        inode,
        d,
        p,
    )->0 as int] by {
        let x = node(geo, v, inode, d, p)->0;
        assert(node(geo, v, inode, depth, path.drop_last()) == Some(table));
        if x == table {
            assert(d == depth && p == path.drop_last());
        }
        assert(after.blocks[x as int] == v.blocks[x as int]);
    }
    assert(same_layout(v, w)) by {
        assert(w.groups == after.groups);
    }
    lemma_grew_by_link(geo, v, inode, w, kept, depth, path, full, b);
}

proof fn lemma_no_growth(geo: Geometry, v: Volume, inode: DiskInode, depth: nat, full: Seq<int>)
    requires
        laid_out(geo, v),
        sound_file(geo, v, inode),
    ensures
        grew(geo, v, inode, v, inode, depth, full),
{
}

/// Following a path below a block of pointers and taking what is missing makes
/// the file grow, up to the block at the end of the path.
proof fn lemma_grown(
    geo: Geometry,
    v: Volume,
    inode: DiskInode,
    depth: nat,
    prefix: Seq<int>,
    table: u32,
    rest: Seq<int>,
)
    requires
        laid_out(geo, v),
        sound_file(geo, v, inode),
        depth > 0,
        is_place(geo, depth, prefix + rest),
        prefix.len() + rest.len() == depth,
        rest.len() > 0,
        node(geo, v, inode, depth, prefix) == Some(table),
        table != 0,
        grown(geo, v, inode, table, rest).0 is Some,
        grown(geo, v, inode, table, rest).0->0 < grown(geo, v, inode, table, rest).1.blocks.len(),
    ensures
        ({
            let (block, w, kept) = grown(geo, v, inode, table, rest);
            &&& grew(geo, v, inode, w, kept, depth, prefix + rest)
            &&& node(geo, w, kept, depth, prefix + rest) == block
            &&& block->0 != 0
        }),
    decreases rest.len(),
{
    let full = prefix + rest;
    let path = prefix.push(rest[0]);
    let more = geo.sectors_per_block() as int;
    assert(full[prefix.len() as int] == rest[0]);
    assert forall|i: int| 0 <= i < path.len() implies 0 <= #[trigger] path[i] < geo.pointers() by {
        assert(path[i] == full[i]);
    }
    assert(is_place(geo, depth, path));
    assert(path.drop_last() =~= prefix);
    assert(is_place(geo, depth, prefix)) by {
        lemma_parent(geo, depth, path);
    }
    assert(path + rest.skip(1) =~= full);
    assert(is_file_block(geo, v, table as int));
    let child = pointer(v.blocks[table as int], rest[0]);
    assert(pointer_in(geo, v, table, rest[0]) == Some(child));
    assert(node(geo, v, inode, depth, path) == Some(child));
    assert(rest.len() == 1 ==> path =~= full);
    if child != 0 {
        if rest.len() == 1 {
            lemma_no_growth(geo, v, inode, depth, full);
        } else {
            lemma_grown(geo, v, inode, depth, path, child, rest.skip(1));
        }
    } else {
        let (fresh, after) = fresh_block(geo, v, rest.len() == 1);
        assert(is_leaf(depth, path) == (rest.len() == 1));
        let b = fresh->0;
        assert(fresh is Some);
        lemma_taken(geo, v);
        if rest.len() > 1 {
            assert(b < v.blocks.len());
        } else {
            let w = (pointer_set(geo, after, table, rest[0], b)->0).1;
            assert(grown(geo, v, inode, table, rest).0 == Some(b));
            assert(grown(geo, v, inode, table, rest).1 == w);
            assert(w.blocks.len() == v.blocks.len());
        }
        let kept = counted(inode, more);
        lemma_step(geo, v, inode, kept, depth, path, full, table);
        let w = (pointer_set(geo, after, table, rest[0], b)->0).1;
        if rest.len() > 1 {
            assert(grown(geo, v, inode, table, rest) == grown(geo, w, kept, b, rest.skip(1)));
            lemma_grown(geo, w, kept, depth, path, b, rest.skip(1));
            let (block, u, end) = grown(geo, w, kept, b, rest.skip(1));
            lemma_grew_twice(geo, v, inode, w, kept, u, end, depth, full);
        }
    }
}

/// Which block of the file a place for data holds.
pub open spec fn index_of(geo: Geometry, depth: nat, path: Seq<int>) -> int {
    let p = geo.pointers();
    if depth == 0 {
        path[0]
    } else if depth == 1 {
        12 + path[0]
    } else if depth == 2 {
        12 + p + (path[0] * p + path[1])
    } else {
        12 + p + p * p + (path[0] * (p * p) + (path[1] * p + path[2]))
    }
}

/// Every block of a file has a place of its own.
pub proof fn lemma_path(geo: Geometry, idx: int)
    requires
        geo.wf(),
        0 <= idx,
        path_of(geo, idx) is Some,
    ensures
        ({
            let (depth, path) = path_of(geo, idx)->0;
            &&& is_place(geo, depth, path)
            &&& is_leaf(depth, path)
            &&& depth > 0 ==> path.len() == depth
            &&& index_of(geo, depth, path) == idx
        }),
{
    let p = geo.pointers();
    assert(p > 0);
    let (depth, path) = path_of(geo, idx)->0;
    if depth == 2 {
        let r = idx - 12 - p;
        lemma_two_digits(r, p);
        assert(path == seq![r / p, r % p]);
    } else if depth == 3 {
        let r = idx - 12 - p - p * p;
        let q = p * p;
        assert(q > 0) by (nonlinear_arith)
            requires
                p > 0,
                q == p * p,
        ;
        vstd::arithmetic::div_mod::lemma_fundamental_div_mod(r, q);
        vstd::arithmetic::div_mod::lemma_mod_bound(r, q);
        lemma_two_digits(r % q, p);
        assert(0 <= r / q < p && q * (r / q) == r / q * q) by (nonlinear_arith)
            requires
                0 <= r < q * p,
                q > 0,
        ;
        assert(path == seq![r / q, r % q / p, r % p]);
        assert(r % p == r % q % p) by {
            vstd::arithmetic::div_mod::lemma_mod_mod(r, p, p);
        }
    }
}

/// A number below a square has two digits.
proof fn lemma_two_digits(r: int, p: int)
    requires
        0 <= r < p * p,
        p > 0,
    ensures
        0 <= r / p < p,
        0 <= r % p < p,
        r / p * p + r % p == r,
{
    vstd::arithmetic::div_mod::lemma_fundamental_div_mod(r, p);
    vstd::arithmetic::div_mod::lemma_mod_bound(r, p);
    assert(0 <= r / p < p && p * (r / p) == r / p * p) by (nonlinear_arith)
        requires
            0 <= r < p * p,
            p > 0,
    ;
}

/// Below a hole there are only holes.
pub proof fn lemma_hole(
    geo: Geometry,
    v: Volume,
    inode: DiskInode,
    depth: nat,
    prefix: Seq<int>,
    rest: Seq<int>,
)
    requires
        depth > 0,
        node(geo, v, inode, depth, prefix) == Some(0u32),
    ensures
        node(geo, v, inode, depth, prefix + rest) == Some(0u32),
    decreases rest.len(),
{
    if rest.len() > 0 {
        assert((prefix + rest).drop_last() =~= prefix + rest.drop_last());
        lemma_hole(geo, v, inode, depth, prefix, rest.drop_last());
    } else {
        assert(prefix + rest =~= prefix);
    }
}

/// Following a path leads to the place at its end.
proof fn lemma_follow(
    geo: Geometry,
    v: Volume,
    inode: DiskInode,
    depth: nat,
    prefix: Seq<int>,
    table: u32,
    rest: Seq<int>,
)
    requires
        sound_file(geo, v, inode),
        depth > 0,
        is_place(geo, depth, prefix + rest),
        node(geo, v, inode, depth, prefix) == Some(table),
    ensures
        follow(geo, v, table, rest) == node(geo, v, inode, depth, prefix + rest),
    decreases rest.len(),
{
    if rest.len() == 0 {
        assert(prefix + rest =~= prefix);
    } else if table == 0 {
        lemma_hole(geo, v, inode, depth, prefix, rest);
    } else {
        let path = prefix.push(rest[0]);
        let full = prefix + rest;
        assert forall|i: int| 0 <= i < path.len() implies 0 <= #[trigger] path[i]
            < geo.pointers() by {
            assert(path[i] == full[i]);
        }
        assert(path.drop_last() =~= prefix);
        lemma_parent(geo, depth, path);
        assert(is_file_block(geo, v, table as int));
        assert(path + rest.skip(1) =~= full);
        let child = pointer(v.blocks[table as int], rest[0]);
        assert(node(geo, v, inode, depth, path) == Some(child));
        lemma_follow(geo, v, inode, depth, path, child, rest.skip(1));
    }
}

/// The disk block of a block of a file is the one at its place.
pub proof fn lemma_resolved(geo: Geometry, v: Volume, inode: DiskInode, idx: int)
    requires
        geo.wf(),
        sound_file(geo, v, inode),
        0 <= idx,
    ensures
        resolved(geo, v, inode, idx) == match path_of(geo, idx) {
            Some((depth, path)) => node(geo, v, inode, depth, path),
            None => None,
        },
{
    if let Some((depth, path)) = path_of(geo, idx) {
        lemma_path(geo, idx);
        if depth > 0 {
            let none = Seq::<int>::empty();
            assert(none + path =~= path);
            lemma_follow(geo, v, inode, depth, none, root_of(inode, depth), path);
        }
    }
}

/// A fresh block that becomes a direct block or a root makes the file grow.
proof fn lemma_head_step(
    geo: Geometry,
    v: Volume,
    inode: DiskInode,
    kept: DiskInode,
    depth: nat,
    path: Seq<int>,
    full: Seq<int>,
)
    requires
        laid_out(geo, v),
        sound_file(geo, v, inode),
        is_place(geo, depth, path),
        depth == 0 && path == full || depth > 0 && path.len() == 0,
        node(geo, v, inode, depth, path) == Some(0u32),
        kept.size == inode.size,
        fresh_block(geo, v, depth == 0).0 is Some,
        fresh_block(geo, v, depth == 0).0->0 < v.blocks.len(),
        heads_linked(inode, kept, depth, path, fresh_block(geo, v, depth == 0).0->0),
    ensures
        ({
            let (block, w) = fresh_block(geo, v, depth == 0);
            &&& block->0 != 0
            &&& grew(geo, v, inode, w, kept, depth, full)
            &&& node(geo, w, kept, depth, path) == block
        }),
{
    let (block, w) = fresh_block(geo, v, depth == 0);
    let b = block->0;
    lemma_fresh(geo, v, inode, depth == 0);
    assert(tables_linked(geo, v, inode, w, depth, path, b)) by {
        assert forall|d: nat, q: Seq<int>, k: int|
            {
                &&& is_place(geo, d, q)
                &&& q.len() < d
                &&& 0 <= k < geo.pointers()
                &&& node(geo, v, inode, d, q) != Some(0u32)
            } implies #[trigger] below(geo, w, node(geo, v, inode, d, q), k) == if d == depth
            && q.push(k) == path {
            Some(b)
        } else {
            below(geo, v, node(geo, v, inode, d, q), k)
        } by {
            assert(is_file_block(geo, v, node(geo, v, inode, d, q)->0 as int));
            assert(q.push(k).len() > 0);
        }
    }
    if depth > 0 {
        assert forall|k: int| 0 <= k < geo.pointers() implies #[trigger] below(
            geo,
            w,
            Some(b),
            k,
        ) == Some(0u32) by {
            assert(w.blocks[b as int] == zeroes(geo.bs() as nat));
        }
    }
    assert forall|d: nat, p: Seq<int>| is_place(geo, d, p) implies #[trigger] node(
        geo,
        w,
        kept,
        d,
        p,
    ) == if d == depth && p == path {
        Some(b)
    } else {
        node(geo, v, inode, d, p)
    } by {
        lemma_linked_at(geo, v, inode, w, kept, depth, path, b, d, p);
    }
    lemma_grew_by_link(geo, v, inode, w, kept, depth, path, full, b);
}

/// Taking a block of a file where it has a hole makes the file grow by that
/// block, and by the blocks of pointers that lead to it.
proof fn lemma_file_block_taken(geo: Geometry, v: Volume, inode: DiskInode, idx: int)
    requires
        laid_out(geo, v),
        sound_file(geo, v, inode),
        0 <= idx,
        file_block_taken(geo, v, inode, idx).0 is Some,
        file_block_taken(geo, v, inode, idx).0->0 < file_block_taken(
            geo,
            v,
            inode,
            idx,
        ).1.blocks.len(),
    ensures
        path_of(geo, idx) is Some,
        ({
            let (block, w, kept) = file_block_taken(geo, v, inode, idx);
            let (depth, path) = path_of(geo, idx)->0;
            &&& grew(geo, v, inode, w, kept, depth, path)
            &&& node(geo, w, kept, depth, path) == block
            &&& block->0 != 0
        }),
{
    reveal(file_block_taken);
    let (depth, path) = path_of(geo, idx)->0;
    let more = geo.sectors_per_block() as int;
    let none = Seq::<int>::empty();
    lemma_path(geo, idx);
    assert(none + path =~= path);
    if depth == 0 {
        if inode.data.direct[idx] != 0 {
            lemma_no_growth(geo, v, inode, depth, path);
        } else {
            let (block, after) = taken(geo, v, Bitmap::Blocks, false);
            let b = block->0;
            lemma_taken(geo, v);
            let kept = counted(with_direct(inode, idx, b), more);
            assert(heads_linked(inode, kept, 0, path, b)) by {
                assert forall|i: int| 0 <= i < 12 implies #[trigger] kept.data.direct[i] == if path
                    == seq![i] {
                    b
                } else {
                    inode.data.direct[i]
                } by {
                    assert(path[0] == idx);
                    assert(seq![i][0] == i);
                    if i == idx {
                        assert(path =~= seq![i]);
                    }
                }
            }
            lemma_head_step(geo, v, inode, kept, 0, path, path);
        }
    } else if root_of(inode, depth) != 0 {
        lemma_grown(geo, v, inode, depth, none, root_of(inode, depth), path);
    } else {
        let (fresh, after) = zeroed(geo, v);
        let root = fresh->0;
        lemma_taken(geo, v);
        let kept = counted(with_root(inode, depth, root), more);
        lemma_head_step(geo, v, inode, kept, depth, none, path);
        lemma_grown(geo, after, kept, depth, none, root, path);
        let (block, w, end) = grown(geo, after, kept, root, path);
        lemma_grew_twice(geo, v, inode, after, kept, w, end, depth, path);
    }
}

/// What a block of a file holds; a hole holds zeroes.
pub open spec fn file_data(geo: Geometry, v: Volume, inode: DiskInode, idx: int) -> Option<
    Seq<u8>,
> {
    match resolved(geo, v, inode, idx) {
        Some(block) => content(geo, v, block as int),
        None => None,
    }
}

/// One block of a file has other data, and every other block has what it had.
pub open spec fn one_changed(
    geo: Geometry,
    v: Volume,
    inode: DiskInode,
    w: Volume,
    kept: DiskInode,
    idx: int,
    data: Seq<u8>,
) -> bool {
    &&& laid_out(geo, w)
    &&& sound_file(geo, w, kept)
    &&& same_layout(v, w)
    &&& kept.size == inode.size
    &&& forall|j: int|
        0 <= j ==> #[trigger] file_data(geo, w, kept, j) == if j == idx {
            Some(data)
        } else {
            file_data(geo, v, inode, j)
        }
}

/// Writing a block of a file, which is taken where there was none, changes that
/// block of the file and no other.
pub proof fn lemma_one_block_written(
    geo: Geometry,
    v: Volume,
    inode: DiskInode,
    idx: int,
    block: u32,
    w: Volume,
    kept: DiskInode,
    data: Seq<u8>,
)
    requires
        laid_out(geo, v),
        sound_file(geo, v, inode),
        0 <= idx,
        data.len() == geo.bs(),
        block < w.blocks.len(),
        ({
            let found = resolved(geo, v, inode, idx);
            if found is Some && found->0 != 0 {
                block == found->0 && w == v && kept == inode
            } else {
                file_block_taken(geo, v, inode, idx) == (Some(block), w, kept)
            }
        }),
    ensures
        one_changed(geo, v, inode, w.with_block(block as int, data), kept, idx, data),
{
    let found = resolved(geo, v, inode, idx);
    lemma_resolved(geo, v, inode, idx);
    if found is Some && found->0 != 0 {
        lemma_path(geo, idx);
        let (depth, path) = path_of(geo, idx)->0;
        lemma_no_growth(geo, v, inode, depth, path);
    } else {
        lemma_file_block_taken(geo, v, inode, idx);
        lemma_path(geo, idx);
    }
    let (depth, path) = path_of(geo, idx)->0;
    assert(grew(geo, v, inode, w, kept, depth, path));
    assert(node(geo, w, kept, depth, path) == Some(block));
    assert(is_file_block(geo, w, block as int));
    assert forall|d: nat, q: Seq<int>| is_place(geo, d, q) && !is_leaf(d, q) implies #[trigger] node(
        geo,
        w,
        kept,
        d,
        q,
    ) != Some(block) by {
        if node(geo, w, kept, d, q) == Some(block) {
            assert(d == depth && q == path);
        }
    }
    let u = w.with_block(block as int, data);
    lemma_tree_after_writing(geo, w, kept, block, data);
    assert(same_layout(v, u)) by {
        assert(u.groups == w.groups);
    }
    assert forall|j: int| 0 <= j implies #[trigger] file_data(geo, u, kept, j) == if j == idx {
        Some(data)
    } else {
        file_data(geo, v, inode, j)
    } by {
        lemma_resolved(geo, v, inode, j);
        lemma_resolved(geo, u, kept, j);
        if path_of(geo, j) is Some {
            lemma_path(geo, j);
            let (d, p) = path_of(geo, j)->0;
            if j != idx {
                assert(!(d == depth && p == path));
                assert(node(geo, w, kept, d, p) == node(geo, v, inode, d, p));
                assert(node(geo, u, kept, d, p) == node(geo, w, kept, d, p));
                let x = node(geo, v, inode, d, p)->0;
                if x != 0 {
                    assert(is_file_block(geo, v, x as int));
                    assert(w.blocks[x as int] == v.blocks[x as int]);
                    assert(x != block) by {
                        if x == block {
                            assert(node(geo, w, kept, d, p) == node(geo, w, kept, depth, path));
                        }
                    }
                }
            } else {
                assert(node(geo, u, kept, depth, path) == Some(block));
            }
        }
    }
}

/// Block `i` of a run of bytes.
pub open spec fn part_of(geo: Geometry, data: Seq<u8>, i: int) -> Seq<u8> {
    data.subrange(i * geo.bs(), i * geo.bs() + geo.bs())
}

/// A run of blocks of a file, from block `first` to `end`, has the data that
/// starts with block `base`, and every other block has what it had.
pub open spec fn run_changed(
    geo: Geometry,
    v: Volume,
    inode: DiskInode,
    w: Volume,
    kept: DiskInode,
    base: int,
    first: int,
    end: int,
    data: Seq<u8>,
) -> bool {
    &&& laid_out(geo, w)
    &&& sound_file(geo, w, kept)
    &&& same_layout(v, w)
    &&& kept.size == inode.size
    &&& forall|j: int|
        0 <= j ==> #[trigger] file_data(geo, w, kept, j) == if first <= j < end {
            Some(part_of(geo, data, j - base))
        } else {
            file_data(geo, v, inode, j)
        }
}

proof fn lemma_blocks_written(
    geo: Geometry,
    v: Volume,
    inode: DiskInode,
    offset: int,
    data: Seq<u8>,
    i: int,
)
    requires
        laid_out(geo, v),
        sound_file(geo, v, inode),
        0 <= offset,
        0 <= i <= data.len() as int / geo.bs(),
        blocks_written(geo, v, inode, offset, data, i).0 is Ok,
    ensures
        ({
            let (_, w, kept) = blocks_written(geo, v, inode, offset, data, i);
            let base = offset / geo.bs();
            run_changed(
                geo,
                v,
                inode,
                w,
                kept,
                base,
                base + i,
                base + data.len() as int / geo.bs(),
                data,
            )
        }),
    decreases data.len() as int / geo.bs() - i,
{
    let n = data.len() as int / geo.bs();
    let base = offset / geo.bs();
    assert(base >= 0) by (nonlinear_arith)
        requires
            offset >= 0,
            geo.bs() > 0,
            base == offset / geo.bs(),
    ;
    if i < n {
        let idx = base + i;
        let found = resolved(geo, v, inode, idx);
        let (block, w, kept) = if found is Some && found->0 != 0 {
            (Some(found->0), v, inode)
        } else {
            file_block_taken(geo, v, inode, idx)
        };
        let part = part_of(geo, data, i);
        assert(part.len() == geo.bs()) by {
            vstd::arithmetic::div_mod::lemma_fundamental_div_mod(data.len() as int, geo.bs());
            vstd::arithmetic::div_mod::lemma_mod_bound(data.len() as int, geo.bs());
            let bs = geo.bs();
            assert(0 <= i * bs && i * bs + bs <= bs * n) by (nonlinear_arith)
                requires
                    0 <= i < n,
                    bs > 0,
            ;
        }
        let u = w.with_block(block->0 as int, part);
        lemma_one_block_written(geo, v, inode, idx, block->0, w, kept, part);
        assert(blocks_written(geo, v, inode, offset, data, i) == blocks_written(
            geo,
            u,
            kept,
            offset,
            data,
            i + 1,
        ));
        lemma_blocks_written(geo, u, kept, offset, data, i + 1);
        let (_, end, last) = blocks_written(geo, u, kept, offset, data, i + 1);
        assert forall|j: int| 0 <= j implies #[trigger] file_data(geo, end, last, j) == if base + i
            <= j < base + n {
            Some(part_of(geo, data, j - base))
        } else {
            file_data(geo, v, inode, j)
        } by {
            assert(file_data(geo, u, kept, j) == if j == idx {
                Some(part)
            } else {
                file_data(geo, v, inode, j)
            });
        }
        assert(same_layout(v, end)) by {
            assert forall|g: int| 0 <= g < v.groups.len() implies (
            #[trigger] end.groups[g]).block_bitmap == v.groups[g].block_bitmap
                && end.groups[g].inode_bitmap == v.groups[g].inode_bitmap
                && end.groups[g].inode_table == v.groups[g].inode_table by {
                assert(u.groups[g].block_bitmap == v.groups[g].block_bitmap);
            }
        }
    }
}

/// Storing an inode changes the layout in no way, and no block but its own.
pub proof fn lemma_layout_after_storing(geo: Geometry, v: Volume, num: u32, stored: DiskInode)
    requires
        laid_out(geo, v),
        with_stored(geo, v, num, stored) is Some,
    ensures
        ({
            let w = with_stored(geo, v, num, stored)->0;
            let block = (inode_place(geo, v, num)->0).0;
            &&& laid_out(geo, w)
            &&& same_layout(v, w)
            &&& is_meta(geo, v, block)
            &&& forall|x: int| #[trigger] in_use(geo, w, x) == in_use(geo, v, x)
            &&& forall|x: int| #[trigger] is_meta(geo, w, x) == is_meta(geo, v, x)
            &&& forall|x: int|
                #![trigger w.blocks[x]]
                0 <= x < v.blocks.len() && x != block ==> w.blocks[x] == v.blocks[x]
        }),
{
    let w = with_stored(geo, v, num, stored)->0;
    let (block, at) = inode_place(geo, v, num)->0;
    assert(own_inode_block(geo, v, num));
    assert(holds_inode(geo, v, num, block));
    reveal(with_words);
    assert forall|g: int, kind: Bitmap| 0 <= g < v.groups.len() implies w.blocks[
    #[trigger] bitmap_of(v.groups[g], kind) as int] == v.blocks[bitmap_of(
        v.groups[g],
        kind,
    ) as int] by {
        assert(own_bitmap(geo, v, kind, g));
        assert(block != bitmap_of(v.groups[g], kind));
    }
    lemma_layout_kept(geo, v, w);
    lemma_same_layout(geo, v, w);
}

/// Storing an inode changes nothing of what files hold.
pub proof fn lemma_inode_stored(geo: Geometry, v: Volume, num: u32, stored: DiskInode, inode: DiskInode)
    requires
        laid_out(geo, v),
        sound_file(geo, v, inode),
        with_stored(geo, v, num, stored) is Some,
    ensures
        ({
            let w = with_stored(geo, v, num, stored)->0;
            &&& laid_out(geo, w)
            &&& same_layout(v, w)
            &&& sound_file(geo, w, inode)
            &&& stored_inode(geo, w, num) == Some(stored)
            &&& forall|j: int|
                0 <= j ==> #[trigger] file_data(geo, w, inode, j) == file_data(geo, v, inode, j)
        }),
{
    let w = with_stored(geo, v, num, stored)->0;
    let (block, at) = inode_place(geo, v, num)->0;
    assert(own_inode_block(geo, v, num));
    law_stored_inode_reads_back(geo, v, num, stored, num);
    lemma_layout_after_storing(geo, v, num, stored);
    assert forall|d: nat, q: Seq<int>|
        is_place(geo, d, q) && !is_leaf(d, q) && (#[trigger] node(geo, v, inode, d, q)) != Some(
            0u32,
        ) implies w.blocks[node(geo, v, inode, d, q)->0 as int] == v.blocks[node(
        geo,
        v,
        inode,
        d,
        q,
    )->0 as int] by {
        assert(is_file_block(geo, v, node(geo, v, inode, d, q)->0 as int));
    }
    lemma_same_tree(geo, v, w, inode);
    lemma_sound_kept(geo, v, w, inode);
    assert forall|j: int| 0 <= j implies #[trigger] file_data(geo, w, inode, j) == file_data(
        geo,
        v,
        inode,
        j,
    ) by {
        lemma_resolved(geo, v, inode, j);
        lemma_resolved(geo, w, inode, j);
        if path_of(geo, j) is Some {
            lemma_path(geo, j);
            let (d, p) = path_of(geo, j)->0;
            assert(node(geo, w, inode, d, p) == node(geo, v, inode, d, p));
            let x = node(geo, v, inode, d, p)->0;
            if x != 0 {
                assert(is_file_block(geo, v, x as int));
            }
        }
    }
}

/// The blocks of a page, put together.
proof fn lemma_page_put_together(
    geo: Geometry,
    v: Volume,
    inode: DiskInode,
    offset: int,
    data: Seq<u8>,
    n: int,
)
    requires
        geo.wf(),
        0 <= n,
        n * geo.bs() <= data.len(),
        forall|i: int|
            0 <= i < n ==> #[trigger] page_block(geo, v, inode, offset, i) == Some(
                part_of(geo, data, i),
            ),
    ensures
        page_blocks(geo, v, inode, offset, n) == Some(data.take(n * geo.bs())),
    decreases n,
{
    let bs = geo.bs();
    if n > 0 {
        assert((n - 1) * bs + bs == n * bs) by (nonlinear_arith);
        lemma_page_put_together(geo, v, inode, offset, data, n - 1);
        assert(0 <= (n - 1) * bs) by (nonlinear_arith)
            requires
                n >= 1,
                bs > 0,
        ;
        assert(page_block(geo, v, inode, offset, n - 1) == Some(part_of(geo, data, n - 1)));
        assert(data.take((n - 1) * bs) + part_of(geo, data, n - 1) =~= data.take(n * bs));
    } else {
        assert(n * bs == 0) by (nonlinear_arith)
            requires
                n == 0,
        ;
        assert(data.take(0) =~= Seq::empty());
    }
}

proof fn lemma_page_same(
    geo: Geometry,
    v: Volume,
    inode: DiskInode,
    w: Volume,
    kept: DiskInode,
    offset: int,
    n: int,
)
    requires
        forall|i: int|
            0 <= i < n ==> #[trigger] page_block(geo, w, kept, offset, i) == page_block(
                geo,
                v,
                inode,
                offset,
                i,
            ),
    ensures
        page_blocks(geo, w, kept, offset, n) == page_blocks(geo, v, inode, offset, n),
    decreases n,
{
    if n > 0 {
        lemma_page_same(geo, v, inode, w, kept, offset, n - 1);
        assert(page_block(geo, w, kept, offset, n - 1) == page_block(
            geo,
            v,
            inode,
            offset,
            n - 1,
        ));
    }
}

/// A page that has been written to a file and stored is what is read from the
/// disk at its place, as far as the file goes, and what is read at any other
/// page is what was read there before. The inode on disk is the one that leads
/// to them, and the file stays sound.
pub proof fn law_stored_page_reads_back(
    geo: Geometry,
    v: Volume,
    num: u32,
    inode: DiskInode,
    offset: int,
    data: Seq<u8>,
    other: int,
    len: int,
)
    requires
        laid_out(geo, v),
        sound_file(geo, v, inode),
        0 <= offset,
        offset % 4096 == 0,
        data.len() == 4096,
        page_stored(geo, v, num, inode, offset, data).0 is Ok,
        0 <= other,
        other % 4096 == 0,
        0 < len <= 4096,
    ensures
        ({
            let (_, after, kept) = page_stored(geo, v, num, inode, offset, data);
            &&& laid_out(geo, after)
            &&& sound_file(geo, after, kept)
            &&& same_layout(v, after)
            &&& kept.size == inode.size
            &&& stored_inode(geo, after, num) == Some(kept)
            &&& read_from(geo, after, kept, other, len) == if other == offset && offset
                < inode.size {
                Some(
                    data.take(
                        if inode.size - offset < len {
                            inode.size - offset
                        } else {
                            len
                        },
                    ),
                )
            } else {
                read_from(geo, v, inode, other, len)
            }
        }),
{
    let (_, mid, kept) = blocks_written(geo, v, inode, offset, data, 0);
    let after = with_stored(geo, mid, num, kept)->0;
    let bs = geo.bs();
    let n = 4096int / bs;
    let base = offset / bs;
    let start = other / bs;
    assert(bs == 1024 || bs == 2048 || bs == 4096);
    assert(n * bs == 4096);
    lemma_blocks_written(geo, v, inode, offset, data, 0);
    lemma_inode_stored(geo, mid, num, kept, kept);
    assert(same_layout(v, after)) by {
        assert(after.groups == mid.groups);
    }
    assert forall|i: int| 0 <= i < n implies #[trigger] page_block(geo, after, kept, other, i)
        == if other == offset {
        Some(part_of(geo, data, i))
    } else {
        page_block(geo, v, inode, other, i)
    } by {
        let j = start + i;
        assert(file_data(geo, after, kept, j) == file_data(geo, mid, kept, j));
        assert(file_data(geo, mid, kept, j) == if base <= j < base + n {
            Some(part_of(geo, data, j - base))
        } else {
            file_data(geo, v, inode, j)
        });
        lemma_resolved(geo, after, kept, j);
        lemma_resolved(geo, v, inode, j);
        if other != offset {
            assert(start + n <= base || base + n <= start) by {
                lemma_pages_apart(geo, other, offset);
            }
        }
    }
    if other == offset {
        lemma_page_put_together(geo, after, kept, offset, data, n);
        assert(data.take(4096) =~= data);
    } else {
        lemma_page_same(geo, v, inode, after, kept, other, n);
    }
}

/// Two pages have no block in common.
proof fn lemma_pages_apart(geo: Geometry, a: int, b: int)
    requires
        geo.wf(),
        0 <= a,
        0 <= b,
        a % 4096 == 0,
        b % 4096 == 0,
        a != b,
    ensures
        a / geo.bs() + 4096int / geo.bs() <= b / geo.bs() || b / geo.bs() + 4096int / geo.bs() <= a
            / geo.bs(),
{
    let i = a / 4096;
    let j = b / 4096;
    let bs = geo.bs();
    let n = 4096int / bs;
    assert(bs == 1024 || bs == 2048 || bs == 4096);
    assert(n * bs == 4096 && n > 0);
    assert(a == i * n * bs && b == j * n * bs) by (nonlinear_arith)
        requires
            n * bs == 4096,
            a == 4096 * i,
            b == 4096 * j,
    ;
    vstd::arithmetic::div_mod::lemma_div_multiples_vanish(i * n, bs);
    vstd::arithmetic::div_mod::lemma_div_multiples_vanish(j * n, bs);
    assert(bs * (i * n) == a && bs * (j * n) == b) by (nonlinear_arith)
        requires
            a == i * n * bs,
            b == j * n * bs,
    ;
    assert(i * n + n <= j * n || j * n + n <= i * n) by (nonlinear_arith)
        requires
            i != j,
            n > 0,
    ;
}

} // verus!
