//! What giving blocks of a file back does to the file.

use crate::common::bytes::{bytes32, patched, zeroes};
use crate::storage::fs::ext2::laws::per_group;
use crate::storage::fs::ext2::structs::{with_words, DiskInode};
use crate::storage::fs::ext2::tree::{
    below, file_data, in_use, inodes_apart, is_file_block, is_leaf, is_meta, is_place, laid_out,
    lemma_block_written, lemma_hole, lemma_inode_stored, lemma_one_block_written, lemma_parent,
    lemma_path, lemma_pointer_patched, lemma_resolved, lemma_same_bitmap, lemma_same_layout,
    lemma_same_tree, marked, node, one_changed, own_bitmap, own_inode_block, same_layout,
    serves_group, sound_file,
};
use crate::storage::fs::ext2::volume::{
    all_zero, bit, bitmap_of, block_count, block_released, blocks_cleared, content, counted,
    file_block_cleared, inode_place, path_of, place_of, pointer, pointer_in, pointer_set, pruned,
    resized, resolved, root_of, stored_inode, table_pruned, tail_cleared, with_direct, with_root,
    without_bit, Bitmap, Geometry, Volume,
};
use vstd::prelude::*;

verus! {

pub proof fn lemma_bit_cleared(data: Seq<u8>, i: int, j: int)
    requires
        0 <= i < 8 * data.len(),
        0 <= j < 8 * data.len(),
    ensures
        bit(without_bit(data, i), j) == (bit(data, j) && i != j),
        without_bit(data, i).len() == data.len(),
{
    let x = data[i / 8];
    let s = (i % 8) as u8;
    let t = (j % 8) as u8;
    assert((x & !(1u8 << s)) & (1u8 << t) != 0 <==> (x & (1u8 << t) != 0 && s != t)) by (bit_vector)
        requires
            s < 8,
            t < 8,
    ;
}

/// A block that a file can have can be given back, and then is the only one
/// that is no longer in use.
#[verifier::rlimit(40)]
pub proof fn lemma_given_back(geo: Geometry, v: Volume, b: u32)
    requires
        laid_out(geo, v),
        is_file_block(geo, v, b as int),
    ensures
        block_released(geo, v, b) is Some,
        ({
            let w = block_released(geo, v, b)->0;
            &&& laid_out(geo, w)
            &&& same_layout(v, w)
            &&& forall|x: int| #[trigger] in_use(geo, w, x) == (in_use(geo, v, x) && x != b)
            &&& forall|x: int| #[trigger] is_meta(geo, w, x) == is_meta(geo, v, x)
            &&& forall|x: int|
                0 <= x < v.blocks.len() && !is_meta(geo, v, x) ==> #[trigger] w.blocks[x]
                    == v.blocks[x]
        }),
{
    let kind = Bitmap::Blocks;
    let (g, i) = place_of(geo, kind, b as int);
    let per = geo.blocks_per_group as int;
    let from = geo.first_data_block();
    let m = v.groups[g].block_bitmap as int;
    assert(marked(geo, v, kind, b as int));
    assert(own_bitmap(geo, v, kind, g));
    let data = v.blocks[m];
    assert(content(geo, v, m) == Some(data));
    let w = block_released(geo, v, b)->0;
    vstd::arithmetic::div_mod::lemma_mod_bound(b - from, per);
    vstd::arithmetic::div_mod::lemma_fundamental_div_mod(b - from, per);
    assert(0 <= i < 8 * geo.bs());
    let table = geo.group_block(g);
    let sb = geo.super_block();
    reveal(with_words);
    assert(w.blocks.len() == v.blocks.len());
    assert(serves_group(geo, v, g, table));
    assert(serves_group(geo, v, g, m));
    assert forall|x: int|
        0 <= x < v.blocks.len() && !is_meta(geo, v, x) implies #[trigger] w.blocks[x]
        == v.blocks[x] by {
        assert(x != table && x != m && x != sb);
    }
    assert(same_layout(v, w)) by {
        assert forall|h: int| 0 <= h < v.groups.len() implies (#[trigger] w.groups[h]).block_bitmap
            == v.groups[h].block_bitmap && w.groups[h].inode_bitmap == v.groups[h].inode_bitmap
            && w.groups[h].inode_table == v.groups[h].inode_table by {}
    }
    lemma_same_layout(geo, v, w);
    assert(w.blocks[m] == without_bit(data, i)) by {
        assert(m != table);
    }
    assert forall|h: int, k: Bitmap| 0 <= h < v.groups.len() && !(h == g && k == kind) implies
        w.blocks[#[trigger] bitmap_of(v.groups[h], k) as int] == v.blocks[bitmap_of(
        v.groups[h],
        k,
    ) as int] by {
        assert(own_bitmap(geo, v, k, h));
        assert(bitmap_of(v.groups[g], kind) != bitmap_of(v.groups[h], k));
        assert(bitmap_of(v.groups[h], k) != geo.group_block(g));
    }
    assert forall|x: int| #[trigger] in_use(geo, w, x) == (in_use(geo, v, x) && x != b) by {
        let (h, j) = place_of(geo, kind, x);
        vstd::arithmetic::div_mod::lemma_mod_bound(x - from, per);
        vstd::arithmetic::div_mod::lemma_fundamental_div_mod(x - from, per);
        if 0 <= h < v.groups.len() {
            lemma_same_bitmap(v, w, h, kind);
            if h == g {
                lemma_bit_cleared(data, i, j);
            } else {
                assert(w.blocks[bitmap_of(v.groups[h], kind) as int]
                    == v.blocks[bitmap_of(v.groups[h], kind) as int]);
            }
        }
    }
    assert forall|x: int| 0 <= x < w.blocks.len() implies (#[trigger] w.blocks[x]).len()
        == geo.bs() by {
        assert(v.blocks[x].len() == geo.bs());
    }
    assert forall|h: int, k: Bitmap| 0 <= h < w.groups.len() implies #[trigger] own_bitmap(
        geo,
        w,
        k,
        h,
    ) by {
        assert(own_bitmap(geo, v, k, h));
        lemma_same_bitmap(v, w, h, k);
        let n = bitmap_of(w.groups[h], k) as int;
        assert forall|h2: int, k2: Bitmap|
            0 <= h2 < w.groups.len() && !(h2 == h && k2 == k) implies n != #[trigger] bitmap_of(
            w.groups[h2],
            k2,
        ) by {
            lemma_same_bitmap(v, w, h2, k2);
            assert(n != bitmap_of(v.groups[h2], k2));
        }
        assert forall|j: int| per_group(geo, k) <= j < 8 * geo.bs() implies #[trigger] bit(
            w.blocks[n],
            j,
        ) by {
            assert(bit(v.blocks[n], j));
            if h == g && k == kind {
                lemma_bit_cleared(data, i, j);
            }
        }
    }
    assert forall|num: u32| #[trigger] own_inode_block(geo, w, num) by {
        assert(own_inode_block(geo, v, num));
        assert(inode_place(geo, w, num) == inode_place(geo, v, num));
        if let Some((x, _)) = inode_place(geo, w, num) {
            assert forall|h: int, k: Bitmap| 0 <= h < w.groups.len() implies x
                != #[trigger] bitmap_of(w.groups[h], k) by {
                lemma_same_bitmap(v, w, h, k);
                assert(x != bitmap_of(v.groups[h], k));
            }
        }
    }
    assert forall|a: u32, c: u32| a != c implies #[trigger] inodes_apart(
        geo,
        w,
        a,
        c,
    ) by {
        assert(inodes_apart(geo, v, a, c));
    }
    assert forall|x: int| #[trigger] is_meta(geo, w, x) implies in_use(geo, w, x) by {
        assert(is_meta(geo, v, x));
        assert(in_use(geo, v, x));
    }
}

/// The tree of a file is sound, but for the block at one place, which may be in
/// use no longer.
pub open spec fn sound_except(
    geo: Geometry,
    v: Volume,
    inode: DiskInode,
    depth: nat,
    path: Seq<int>,
) -> bool {
    &&& forall|d: nat, p: Seq<int>|
        is_place(geo, d, p) ==> (#[trigger] node(geo, v, inode, d, p)) is Some && (node(
            geo,
            v,
            inode,
            d,
            p,
        )->0 != 0 ==> {
            let b = node(geo, v, inode, d, p)->0 as int;
            &&& 0 < b < v.blocks.len()
            &&& !is_meta(geo, v, b)
            &&& (d == depth && p == path) || in_use(geo, v, b)
        })
    &&& forall|d1: nat, p1: Seq<int>, d2: nat, p2: Seq<int>|
        {
            &&& is_place(geo, d1, p1)
            &&& is_place(geo, d2, p2)
            &&& #[trigger] node(geo, v, inode, d1, p1) == #[trigger] node(geo, v, inode, d2, p2)
            &&& node(geo, v, inode, d1, p1) != Some(0u32)
        } ==> d1 == d2 && p1 == p2
}

/// The tree after the block at a place, below which there is nothing, has been
/// cut off.
pub open spec fn cut_off(
    geo: Geometry,
    v: Volume,
    inode: DiskInode,
    w: Volume,
    kept: DiskInode,
    depth: nat,
    path: Seq<int>,
) -> bool {
    forall|d: nat, p: Seq<int>|
        is_place(geo, d, p) ==> #[trigger] node(geo, w, kept, d, p) == if d == depth && p == path {
            Some(0u32)
        } else {
            node(geo, v, inode, d, p)
        }
}

/// The direct blocks and the roots of `kept` are those of `inode`, but for one
/// place, where there is none.
pub open spec fn heads_cut(inode: DiskInode, kept: DiskInode, depth: nat, path: Seq<int>) -> bool {
    &&& forall|i: int|
        0 <= i < 12 ==> #[trigger] kept.data.direct[i] == if depth == 0 && path == seq![i] {
            0
        } else {
            inode.data.direct[i]
        }
    &&& forall|d: nat|
        1 <= d <= 3 ==> #[trigger] root_of(kept, d) == if d == depth && path.len() == 0 {
            0
        } else {
            root_of(inode, d)
        }
}

/// The blocks of pointers in `w` are those in `v`, but for the pointer to one
/// place, which is cleared.
pub open spec fn tables_cut(
    geo: Geometry,
    v: Volume,
    inode: DiskInode,
    w: Volume,
    depth: nat,
    path: Seq<int>,
) -> bool {
    forall|d: nat, q: Seq<int>, k: int|
        {
            &&& is_place(geo, d, q)
            &&& q.len() < d
            &&& !(d == depth && q == path)
            &&& 0 <= k < geo.pointers()
            &&& node(geo, v, inode, d, q) != Some(0u32)
        } ==> #[trigger] below(geo, w, node(geo, v, inode, d, q), k) == if d == depth && q.push(k)
            == path {
            Some(0u32)
        } else {
            below(geo, v, node(geo, v, inode, d, q), k)
        }
}

/// There is nothing below a place.
pub open spec fn bare(
    geo: Geometry,
    v: Volume,
    inode: DiskInode,
    depth: nat,
    path: Seq<int>,
) -> bool {
    !is_leaf(depth, path) ==> forall|k: int|
        0 <= k < geo.pointers() ==> #[trigger] below(
            geo,
            v,
            node(geo, v, inode, depth, path),
            k,
        ) == Some(0u32)
}

proof fn lemma_cut_at(
    geo: Geometry,
    v: Volume,
    inode: DiskInode,
    w: Volume,
    kept: DiskInode,
    depth: nat,
    path: Seq<int>,
    d: nat,
    p: Seq<int>,
)
    requires
        is_place(geo, depth, path),
        is_place(geo, d, p),
        bare(geo, v, inode, depth, path),
        heads_cut(inode, kept, depth, path),
        tables_cut(geo, v, inode, w, depth, path),
    ensures
        node(geo, w, kept, d, p) == if d == depth && p == path {
            Some(0u32)
        } else {
            node(geo, v, inode, d, p)
        },
    decreases p.len(),
{
    if d == 0 {
        assert(p =~= seq![p[0]]);
        assert(kept.data.direct[p[0]] == if depth == 0 && path == seq![p[0]] {
            0
        } else {
            inode.data.direct[p[0]]
        });
    } else if p.len() == 0 {
        assert(root_of(kept, d) == if d == depth && path.len() == 0 {
            0
        } else {
            root_of(inode, d)
        });
        if d == depth && path.len() == 0 {
            assert(p =~= path);
        }
    } else {
        lemma_parent(geo, d, p);
        let q = p.drop_last();
        let k = p.last();
        lemma_cut_at(geo, v, inode, w, kept, depth, path, d, q);
        if d == depth && q == path {
            assert(!is_leaf(depth, path));
            assert(below(geo, v, node(geo, v, inode, depth, path), k) == Some(0u32));
        } else if node(geo, v, inode, d, q) != Some(0u32) {
            assert(below(geo, w, node(geo, v, inode, d, q), k) == if d == depth && q.push(k)
                == path {
                Some(0u32)
            } else {
                below(geo, v, node(geo, v, inode, d, q), k)
            });
        }
    }
}

/// A file from which a block has been cut off is sound, whether that block is in
/// use or not.
proof fn lemma_sound_cut(
    geo: Geometry,
    v: Volume,
    inode: DiskInode,
    w: Volume,
    kept: DiskInode,
    depth: nat,
    path: Seq<int>,
)
    requires
        sound_except(geo, v, inode, depth, path),
        cut_off(geo, v, inode, w, kept, depth, path),
        w.blocks.len() == v.blocks.len(),
        forall|x: int| #[trigger] is_meta(geo, w, x) == is_meta(geo, v, x),
        forall|x: int| #[trigger] in_use(geo, v, x) ==> in_use(geo, w, x),
    ensures
        sound_file(geo, w, kept),
{
    assert forall|d: nat, p: Seq<int>| is_place(geo, d, p) implies (#[trigger] node(
        geo,
        w,
        kept,
        d,
        p,
    )) is Some && (node(geo, w, kept, d, p)->0 != 0 ==> is_file_block(
        geo,
        w,
        node(geo, w, kept, d, p)->0 as int,
    )) by {
        assert(node(geo, v, inode, d, p) is Some);
        let x = node(geo, v, inode, d, p)->0 as int;
        assert(is_meta(geo, w, x) == is_meta(geo, v, x));
        assert(in_use(geo, v, x) ==> in_use(geo, w, x));
    }
    assert forall|d1: nat, p1: Seq<int>, d2: nat, p2: Seq<int>|
        {
            &&& is_place(geo, d1, p1)
            &&& is_place(geo, d2, p2)
            &&& #[trigger] node(geo, w, kept, d1, p1) == #[trigger] node(geo, w, kept, d2, p2)
            &&& node(geo, w, kept, d1, p1) != Some(0u32)
        } implies d1 == d2 && p1 == p2 by {
        assert(node(geo, v, inode, d1, p1) == node(geo, v, inode, d2, p2));
    }
}

/// Clearing the pointer to a place, below which there is nothing, cuts it off.
proof fn lemma_pointer_cut(
    geo: Geometry,
    v: Volume,
    inode: DiskInode,
    depth: nat,
    path: Seq<int>,
    table: u32,
)
    requires
        laid_out(geo, v),
        sound_except(geo, v, inode, depth, path),
        is_place(geo, depth, path),
        depth > 0,
        path.len() > 0,
        node(geo, v, inode, depth, path.drop_last()) == Some(table),
        table != 0,
        bare(geo, v, inode, depth, path),
    ensures
        ({
            let data = patched(v.blocks[table as int], 4 * path.last(), bytes32(0));
            let w = v.with_block(table as int, data);
            &&& pointer_set(geo, v, table, path.last(), 0) == Some(
                (all_zero(data, geo.pointers()), w),
            )
            &&& cut_off(geo, v, inode, w, inode, depth, path)
            &&& sound_file(geo, w, inode)
            &&& laid_out(geo, w)
            &&& same_layout(v, w)
            &&& forall|x: int| #[trigger] in_use(geo, w, x) == in_use(geo, v, x)
            &&& forall|x: int| #[trigger] is_meta(geo, w, x) == is_meta(geo, v, x)
        }),
{
    let k = path.last();
    let old = v.blocks[table as int];
    let data = patched(old, 4 * k, bytes32(0));
    let w = v.with_block(table as int, data);
    lemma_parent(geo, depth, path);
    assert(0 < table < v.blocks.len() && !is_meta(geo, v, table as int));
    lemma_block_written(geo, v, table, data);
    assert(4 * geo.pointers() == geo.bs());
    assert(tables_cut(geo, v, inode, w, depth, path)) by {
        assert forall|d: nat, q: Seq<int>, j: int|
            {
                &&& is_place(geo, d, q)
                &&& q.len() < d
                &&& !(d == depth && q == path)
                &&& 0 <= j < geo.pointers()
                &&& node(geo, v, inode, d, q) != Some(0u32)
            } implies #[trigger] below(geo, w, node(geo, v, inode, d, q), j) == if d == depth
            && q.push(j) == path {
            Some(0u32)
        } else {
            below(geo, v, node(geo, v, inode, d, q), j)
        } by {
            assert(node(geo, v, inode, d, q) is Some);
            let y = node(geo, v, inode, d, q)->0;
            if y == table {
                assert(d == depth && q == path.drop_last());
                lemma_pointer_patched(old, k, j, 0);
                if q.push(j) == path {
                    assert(path.last() == j);
                }
            } else if d == depth && q.push(j) == path {
                assert(q =~= path.drop_last());
            }
        }
    }
    assert(heads_cut(inode, inode, depth, path));
    assert forall|d: nat, p: Seq<int>| is_place(geo, d, p) implies #[trigger] node(
        geo,
        w,
        inode,
        d,
        p,
    ) == if d == depth && p == path {
        Some(0u32)
    } else {
        node(geo, v, inode, d, p)
    } by {
        lemma_cut_at(geo, v, inode, w, inode, depth, path, d, p);
    }
    lemma_sound_cut(geo, v, inode, w, inode, depth, path);
}

/// A block that stands at no place of a file, or at one place only, is given
/// back: the tree stays, and is sound but for that place.
proof fn lemma_tree_after_giving_back(
    geo: Geometry,
    v: Volume,
    inode: DiskInode,
    b: u32,
    depth: nat,
    path: Seq<int>,
)
    requires
        laid_out(geo, v),
        sound_file(geo, v, inode),
        is_file_block(geo, v, b as int),
        forall|d: nat, p: Seq<int>|
            is_place(geo, d, p) && (#[trigger] node(geo, v, inode, d, p)) == Some(b) ==> d == depth
                && p == path,
    ensures
        block_released(geo, v, b) is Some,
        ({
            let w = block_released(geo, v, b)->0;
            &&& laid_out(geo, w)
            &&& same_layout(v, w)
            &&& forall|x: int| #[trigger] is_meta(geo, w, x) == is_meta(geo, v, x)
            &&& forall|d: nat, p: Seq<int>|
                is_place(geo, d, p) ==> #[trigger] node(geo, w, inode, d, p) == node(
                    geo,
                    v,
                    inode,
                    d,
                    p,
                )
            &&& forall|x: int| #[trigger] is_file_block(geo, v, x) ==> w.blocks[x] == v.blocks[x]
            &&& sound_except(geo, w, inode, depth, path)
            &&& node(geo, v, inode, depth, path) != Some(b) ==> sound_file(geo, w, inode)
        }),
{
    let w = block_released(geo, v, b)->0;
    lemma_given_back(geo, v, b);
    assert forall|x: int| #[trigger] is_file_block(geo, v, x) implies w.blocks[x]
        == v.blocks[x] by {}
    assert forall|d: nat, q: Seq<int>|
        is_place(geo, d, q) && !is_leaf(d, q) && (#[trigger] node(geo, v, inode, d, q)) != Some(
            0u32,
        ) implies w.blocks[node(geo, v, inode, d, q)->0 as int] == v.blocks[node(
        geo,
        v,
        inode,
        d,
        q,
    )->0 as int] by {
        assert(is_file_block(geo, v, node(geo, v, inode, d, q)->0 as int));
    }
    lemma_same_tree(geo, v, w, inode);
    assert forall|d: nat, p: Seq<int>| is_place(geo, d, p) implies (#[trigger] node(
        geo,
        w,
        inode,
        d,
        p,
    )) is Some && (node(geo, w, inode, d, p)->0 != 0 ==> {
        let x = node(geo, w, inode, d, p)->0 as int;
        &&& 0 < x < w.blocks.len()
        &&& !is_meta(geo, w, x)
        &&& (d == depth && p == path && x == b) || in_use(geo, w, x)
    }) by {
        assert(node(geo, v, inode, d, p) is Some);
        let x = node(geo, v, inode, d, p)->0 as int;
        assert(is_meta(geo, w, x) == is_meta(geo, v, x));
        assert(in_use(geo, w, x) == (in_use(geo, v, x) && x != b));
        if x != 0 {
            assert(is_file_block(geo, v, x));
        }
    }
    assert forall|d1: nat, p1: Seq<int>, d2: nat, p2: Seq<int>|
        {
            &&& is_place(geo, d1, p1)
            &&& is_place(geo, d2, p2)
            &&& #[trigger] node(geo, w, inode, d1, p1) == #[trigger] node(geo, w, inode, d2, p2)
            &&& node(geo, w, inode, d1, p1) != Some(0u32)
        } implies d1 == d2 && p1 == p2 by {
        assert(node(geo, v, inode, d1, p1) == node(geo, v, inode, d2, p2));
    }
}

/// A file lost the block at the end of a path, and blocks of pointers on the
/// path below `prefix` that became empty. `gone` tells that the one at `prefix`
/// was given back too, though it still hangs in the tree.
pub open spec fn pruned_to(
    geo: Geometry,
    v: Volume,
    inode: DiskInode,
    w: Volume,
    depth: nat,
    prefix: Seq<int>,
    full: Seq<int>,
    gone: bool,
) -> bool {
    &&& laid_out(geo, w)
    &&& same_layout(v, w)
    &&& forall|x: int| #[trigger] is_meta(geo, w, x) == is_meta(geo, v, x)
    &&& node(geo, w, inode, depth, full) == Some(0u32)
    &&& forall|d: nat, p: Seq<int>|
        is_place(geo, d, p) && !(d == depth && p.len() > prefix.len() && p == full.take(
            p.len() as int,
        )) ==> #[trigger] node(geo, w, inode, d, p) == node(geo, v, inode, d, p)
    &&& forall|d: nat, p: Seq<int>|
        {
            &&& is_place(geo, d, p)
            &&& is_leaf(d, p)
            &&& !(d == depth && p == full)
            &&& (#[trigger] node(geo, v, inode, d, p)) != Some(0u32)
        } ==> w.blocks[node(geo, v, inode, d, p)->0 as int] == v.blocks[node(
            geo,
            v,
            inode,
            d,
            p,
        )->0 as int]
    &&& if gone {
        sound_except(geo, w, inode, depth, prefix) && bare(geo, w, inode, depth, prefix)
    } else {
        sound_file(geo, w, inode)
    }
}

/// What `table_pruned` does once the pointer to `path` has been cleared.
proof fn lemma_table_pruned(
    geo: Geometry,
    v: Volume,
    inode: DiskInode,
    u: Volume,
    kept: DiskInode,
    depth: nat,
    prefix: Seq<int>,
    full: Seq<int>,
    table: u32,
    empty: bool,
)
    requires
        sound_file(geo, v, inode),
        pruned_to(geo, v, inode, u, depth, prefix, full, false),
        depth > 0,
        is_place(geo, depth, prefix),
        is_place(geo, depth, full),
        full.len() == depth,
        prefix.len() < depth,
        node(geo, u, inode, depth, prefix) == Some(table),
        table != 0,
        empty == all_zero(u.blocks[table as int], geo.pointers()),
        table_pruned(geo, u, kept, table, empty).0 is Ok,
    ensures
        ({
            let (r, w, end) = table_pruned(geo, u, kept, table, empty);
            &&& pruned_to(geo, v, inode, w, depth, prefix, full, r->Ok_0)
            &&& end.data == kept.data
            &&& end.size == kept.size
        }),
{
    if empty {
        assert(is_file_block(geo, u, table as int));
        assert forall|d: nat, p: Seq<int>|
            is_place(geo, d, p) && (#[trigger] node(geo, u, inode, d, p)) == Some(
                table,
            ) implies d == depth && p == prefix by {
            assert(node(geo, u, inode, d, p) == node(geo, u, inode, depth, prefix));
        }
        lemma_tree_after_giving_back(geo, u, inode, table, depth, prefix);
        let w = block_released(geo, u, table)->0;
        assert(same_layout(v, w)) by {
            assert forall|g: int| 0 <= g < v.groups.len() implies (
            #[trigger] w.groups[g]).block_bitmap == v.groups[g].block_bitmap
                && w.groups[g].inode_bitmap == v.groups[g].inode_bitmap
                && w.groups[g].inode_table == v.groups[g].inode_table by {
                assert(u.groups[g].block_bitmap == v.groups[g].block_bitmap);
            }
        }
        assert forall|x: int| #[trigger] is_meta(geo, w, x) == is_meta(geo, v, x) by {
            assert(is_meta(geo, u, x) == is_meta(geo, v, x));
        }
        assert forall|k: int| 0 <= k < geo.pointers() implies #[trigger] below(
            geo,
            w,
            node(geo, w, inode, depth, prefix),
            k,
        ) == Some(0u32) by {
            assert(w.blocks[table as int] == u.blocks[table as int]);
            assert(pointer(u.blocks[table as int], k) == 0);
        }
        assert forall|d: nat, p: Seq<int>|
            {
                &&& is_place(geo, d, p)
                &&& is_leaf(d, p)
                &&& !(d == depth && p == full)
                &&& (#[trigger] node(geo, v, inode, d, p)) != Some(0u32)
            } implies w.blocks[node(geo, v, inode, d, p)->0 as int] == v.blocks[node(
            geo,
            v,
            inode,
            d,
            p,
        )->0 as int] by {
            let x = node(geo, v, inode, d, p)->0 as int;
            assert(node(geo, u, inode, d, p) == node(geo, v, inode, d, p)) by {
                if d == depth {
                    assert(full.take(p.len() as int) =~= full);
                }
            }
            assert(is_file_block(geo, u, x));
        }
    }
}

/// The last pointer of a path is cleared and its block given back.
proof fn lemma_leaf_pruned(
    geo: Geometry,
    v: Volume,
    inode: DiskInode,
    depth: nat,
    full: Seq<int>,
    table: u32,
    child: u32,
)
    requires
        laid_out(geo, v),
        sound_file(geo, v, inode),
        depth > 0,
        is_place(geo, depth, full),
        full.len() == depth,
        node(geo, v, inode, depth, full.drop_last()) == Some(table),
        table != 0,
        node(geo, v, inode, depth, full) == Some(child),
        child != 0,
    ensures
        ({
            let data = patched(v.blocks[table as int], 4 * full.last(), bytes32(0));
            let u = v.with_block(table as int, data);
            &&& pointer_set(geo, v, table, full.last(), 0) == Some(
                (all_zero(data, geo.pointers()), u),
            )
            &&& block_released(geo, u, child) matches Some(w) && {
                &&& pruned_to(geo, v, inode, w, depth, full.drop_last(), full, false)
                &&& w.blocks[table as int] == data
            }
        }),
{
    let prefix = full.drop_last();
    let data = patched(v.blocks[table as int], 4 * full.last(), bytes32(0));
    let u = v.with_block(table as int, data);
    lemma_parent(geo, depth, full);
    assert(sound_except(geo, v, inode, depth, full));
    lemma_pointer_cut(geo, v, inode, depth, full, table);
    assert(is_file_block(geo, v, child as int));
    assert(is_file_block(geo, u, child as int)) by {
        assert(in_use(geo, u, child as int) == in_use(geo, v, child as int));
        assert(is_meta(geo, u, child as int) == is_meta(geo, v, child as int));
    }
    assert forall|d: nat, p: Seq<int>|
        is_place(geo, d, p) && (#[trigger] node(geo, u, inode, d, p)) == Some(
            child,
        ) implies d == depth && p == full by {
        if !(d == depth && p == full) {
            assert(node(geo, v, inode, d, p) == node(geo, v, inode, depth, full));
        }
    }
    lemma_tree_after_giving_back(geo, u, inode, child, depth, full);
    let w = block_released(geo, u, child)->0;
    assert(node(geo, u, inode, depth, full) == Some(0u32));
    assert(same_layout(v, w)) by {
        assert(u.groups == v.groups);
    }
    assert forall|x: int| #[trigger] is_meta(geo, w, x) == is_meta(geo, v, x) by {
        assert(is_meta(geo, u, x) == is_meta(geo, v, x));
    }
    assert forall|d: nat, p: Seq<int>|
        is_place(geo, d, p) && !(d == depth && p.len() > prefix.len() && p == full.take(
            p.len() as int,
        )) implies #[trigger] node(geo, w, inode, d, p) == node(geo, v, inode, d, p) by {
        assert(full.take(full.len() as int) =~= full);
        assert(node(geo, u, inode, d, p) == node(geo, v, inode, d, p));
    }
    assert(node(geo, u, inode, depth, prefix) == Some(table));
    assert(is_file_block(geo, u, table as int));
    assert forall|d: nat, p: Seq<int>|
        {
            &&& is_place(geo, d, p)
            &&& is_leaf(d, p)
            &&& !(d == depth && p == full)
            &&& (#[trigger] node(geo, v, inode, d, p)) != Some(0u32)
        } implies w.blocks[node(geo, v, inode, d, p)->0 as int] == v.blocks[node(
        geo,
        v,
        inode,
        d,
        p,
    )->0 as int] by {
        let x = node(geo, v, inode, d, p)->0;
        assert(node(geo, u, inode, d, p) == Some(x));
        assert(is_file_block(geo, u, x as int));
        if x == table {
            assert(node(geo, v, inode, d, p) == node(geo, v, inode, depth, prefix));
        }
    }
}

/// The pointer to a block of pointers that became empty, and was given back, is
/// cleared.
proof fn lemma_table_cut(
    geo: Geometry,
    v: Volume,
    inode: DiskInode,
    u: Volume,
    depth: nat,
    path: Seq<int>,
    full: Seq<int>,
    table: u32,
)
    requires
        sound_file(geo, v, inode),
        depth > 0,
        is_place(geo, depth, full),
        is_place(geo, depth, path),
        full.len() == depth,
        0 < path.len() < depth,
        pruned_to(geo, v, inode, u, depth, path, full, true),
        node(geo, u, inode, depth, path.drop_last()) == Some(table),
        table != 0,
    ensures
        ({
            let data = patched(u.blocks[table as int], 4 * path.last(), bytes32(0));
            let w = u.with_block(table as int, data);
            &&& pointer_set(geo, u, table, path.last(), 0) == Some(
                (all_zero(data, geo.pointers()), w),
            )
            &&& path == full.take(path.len() as int) ==> pruned_to(
                geo,
                v,
                inode,
                w,
                depth,
                path.drop_last(),
                full,
                false,
            )
        }),
{
    let prefix = path.drop_last();
    let data = patched(u.blocks[table as int], 4 * path.last(), bytes32(0));
    let w = u.with_block(table as int, data);
    lemma_parent(geo, depth, path);
    lemma_pointer_cut(geo, u, inode, depth, path, table);
    if path == full.take(path.len() as int) {
        assert(same_layout(v, w)) by {
            assert(w.groups == u.groups);
        }
        assert forall|x: int| #[trigger] is_meta(geo, w, x) == is_meta(geo, v, x) by {
            assert(is_meta(geo, u, x) == is_meta(geo, v, x));
        }
        assert(node(geo, w, inode, depth, full) == node(geo, u, inode, depth, full));
        assert forall|d: nat, p: Seq<int>|
            is_place(geo, d, p) && !(d == depth && p.len() > prefix.len() && p == full.take(
                p.len() as int,
            )) implies #[trigger] node(geo, w, inode, d, p) == node(geo, v, inode, d, p) by {
            assert(node(geo, w, inode, d, p) == node(geo, u, inode, d, p));
        }
        assert forall|d: nat, p: Seq<int>|
            {
                &&& is_place(geo, d, p)
                &&& is_leaf(d, p)
                &&& !(d == depth && p == full)
                &&& (#[trigger] node(geo, v, inode, d, p)) != Some(0u32)
            } implies w.blocks[node(geo, v, inode, d, p)->0 as int] == v.blocks[node(
            geo,
            v,
            inode,
            d,
            p,
        )->0 as int] by {
            let x = node(geo, v, inode, d, p)->0;
            if d == depth {
                assert(full.take(p.len() as int) =~= full);
            }
            assert(node(geo, u, inode, d, p) == Some(x));
            if x == table {
                assert(node(geo, u, inode, d, p) == node(geo, u, inode, depth, prefix));
            }
            assert(u.blocks[x as int] == v.blocks[x as int]);
        }
    }
}

/// Pruning a path makes its block a hole and keeps every other block of data.
proof fn lemma_pruned(
    geo: Geometry,
    v: Volume,
    inode: DiskInode,
    depth: nat,
    prefix: Seq<int>,
    table: u32,
    rest: Seq<int>,
)
    requires
        laid_out(geo, v),
        sound_file(geo, v, inode),
        depth > 0,
        is_place(geo, depth, prefix + rest),
        prefix.len() + rest.len() == depth,
        rest.len() > 0,
        node(geo, v, inode, depth, prefix) == Some(table),
        table != 0,
        pruned(geo, v, inode, table, rest).0 is Ok,
    ensures
        ({
            let (r, w, kept) = pruned(geo, v, inode, table, rest);
            &&& pruned_to(geo, v, inode, w, depth, prefix, prefix + rest, r->Ok_0)
            &&& kept.data == inode.data
            &&& kept.size == inode.size
        }),
    decreases rest.len(),
{
    let full = prefix + rest;
    let path = prefix.push(rest[0]);
    let less = -geo.sectors_per_block();
    assert(full[prefix.len() as int] == rest[0]);
    assert forall|i: int| 0 <= i < path.len() implies 0 <= #[trigger] path[i] < geo.pointers() by {
        assert(path[i] == full[i]);
    }
    assert(is_place(geo, depth, path));
    assert(path.drop_last() =~= prefix);
    lemma_parent(geo, depth, path);
    assert(path + rest.skip(1) =~= full);
    assert(path =~= full.take(path.len() as int));
    assert(is_file_block(geo, v, table as int));
    let child = pointer(v.blocks[table as int], rest[0]);
    assert(pointer_in(geo, v, table, rest[0]) == Some(child));
    assert(node(geo, v, inode, depth, path) == Some(child));
    if child == 0 {
        lemma_hole(geo, v, inode, depth, path, rest.skip(1));
    } else if rest.len() == 1 {
        assert(path =~= full);
        lemma_leaf_pruned(geo, v, inode, depth, full, table, child);
        let data = patched(v.blocks[table as int], 4 * rest[0], bytes32(0));
        let u = v.with_block(table as int, data);
        let w = block_released(geo, u, child)->0;
        lemma_table_pruned(
            geo,
            v,
            inode,
            w,
            counted(inode, less),
            depth,
            prefix,
            full,
            table,
            all_zero(data, geo.pointers()),
        );
    } else {
        lemma_pruned(geo, v, inode, depth, path, child, rest.skip(1));
        let (r, u, kept) = pruned(geo, v, inode, child, rest.skip(1));
        if r == Ok::<bool, ()>(true) {
            assert(node(geo, u, inode, depth, prefix) == Some(table));
            lemma_table_cut(geo, v, inode, u, depth, path, full, table);
            let data = patched(u.blocks[table as int], 4 * rest[0], bytes32(0));
            let w = u.with_block(table as int, data);
            assert(node(geo, w, inode, depth, prefix) == Some(table));
            assert(0 < table < u.blocks.len());
            lemma_table_pruned(
                geo,
                v,
                inode,
                w,
                kept,
                depth,
                prefix,
                full,
                table,
                all_zero(data, geo.pointers()),
            );
        } else {
            assert(pruned_to(geo, v, inode, u, depth, prefix, full, false));
        }
    }
}

/// The tree goes by the pointers of the inode alone.
proof fn lemma_same_pointers(
    geo: Geometry,
    v: Volume,
    inode: DiskInode,
    kept: DiskInode,
    d: nat,
    p: Seq<int>,
)
    requires
        kept.data == inode.data,
    ensures
        node(geo, v, kept, d, p) == node(geo, v, inode, d, p),
    decreases p.len(),
{
    if d > 0 && p.len() > 0 {
        lemma_same_pointers(geo, v, inode, kept, d, p.drop_last());
    }
}

proof fn lemma_sound_same_pointers(geo: Geometry, v: Volume, inode: DiskInode, kept: DiskInode)
    requires
        kept.data == inode.data,
        sound_file(geo, v, inode),
    ensures
        sound_file(geo, v, kept),
{
    assert forall|d: nat, p: Seq<int>| #[trigger] node(geo, v, kept, d, p) == node(
        geo,
        v,
        inode,
        d,
        p,
    ) by {
        lemma_same_pointers(geo, v, inode, kept, d, p);
    }
}

/// The data of a file is what it was, but for one block, which is a hole.
pub open spec fn leaf_cut(
    geo: Geometry,
    v: Volume,
    inode: DiskInode,
    w: Volume,
    kept: DiskInode,
    depth: nat,
    full: Seq<int>,
) -> bool {
    &&& laid_out(geo, w)
    &&& same_layout(v, w)
    &&& sound_file(geo, w, kept)
    &&& kept.size == inode.size
    &&& forall|d: nat, p: Seq<int>|
        is_place(geo, d, p) && is_leaf(d, p) ==> #[trigger] node(geo, w, kept, d, p) == if d
            == depth && p == full {
            Some(0u32)
        } else {
            node(geo, v, inode, d, p)
        }
    &&& forall|d: nat, p: Seq<int>|
        {
            &&& is_place(geo, d, p)
            &&& is_leaf(d, p)
            &&& !(d == depth && p == full)
            &&& (#[trigger] node(geo, v, inode, d, p)) != Some(0u32)
        } ==> w.blocks[node(geo, v, inode, d, p)->0 as int] == v.blocks[node(
            geo,
            v,
            inode,
            d,
            p,
        )->0 as int]
}

/// A direct block or a root, below which there is nothing, is cut off the inode.
proof fn lemma_head_cut(
    geo: Geometry,
    v: Volume,
    inode: DiskInode,
    kept: DiskInode,
    depth: nat,
    path: Seq<int>,
)
    requires
        is_place(geo, depth, path),
        depth == 0 || path.len() == 0,
        sound_except(geo, v, inode, depth, path),
        bare(geo, v, inode, depth, path),
        heads_cut(inode, kept, depth, path),
    ensures
        sound_file(geo, v, kept),
        cut_off(geo, v, inode, v, kept, depth, path),
{
    assert(tables_cut(geo, v, inode, v, depth, path)) by {
        assert forall|d: nat, q: Seq<int>, k: int|
            {
                &&& is_place(geo, d, q)
                &&& q.len() < d
                &&& !(d == depth && q == path)
                &&& 0 <= k < geo.pointers()
                &&& node(geo, v, inode, d, q) != Some(0u32)
            } implies #[trigger] below(geo, v, node(geo, v, inode, d, q), k) == if d == depth
            && q.push(k) == path {
            Some(0u32)
        } else {
            below(geo, v, node(geo, v, inode, d, q), k)
        } by {
            assert(q.push(k).len() > 0);
        }
    }
    assert forall|d: nat, p: Seq<int>| is_place(geo, d, p) implies #[trigger] node(
        geo,
        v,
        kept,
        d,
        p,
    ) == if d == depth && p == path {
        Some(0u32)
    } else {
        node(geo, v, inode, d, p)
    } by {
        lemma_cut_at(geo, v, inode, v, kept, depth, path, d, p);
    }
    lemma_sound_cut(geo, v, inode, v, kept, depth, path);
}

/// Clearing a direct block of a file cuts it off.
proof fn lemma_direct_cleared(geo: Geometry, v: Volume, inode: DiskInode, idx: int)
    requires
        laid_out(geo, v),
        sound_file(geo, v, inode),
        0 <= idx < 12,
        inode.data.direct[idx] != 0,
    ensures
        block_released(geo, v, inode.data.direct[idx]) is Some,
        ({
            let w = block_released(geo, v, inode.data.direct[idx])->0;
            let kept = counted(with_direct(inode, idx, 0), -geo.sectors_per_block());
            leaf_cut(geo, v, inode, w, kept, 0, seq![idx])
        }),
{
    let b = inode.data.direct[idx];
    let path = seq![idx];
    let kept = counted(with_direct(inode, idx, 0), -geo.sectors_per_block());
    assert(is_place(geo, 0, path));
    assert(node(geo, v, inode, 0, path) == Some(b));
    assert(is_file_block(geo, v, b as int));
    assert forall|d: nat, p: Seq<int>|
        is_place(geo, d, p) && (#[trigger] node(geo, v, inode, d, p)) == Some(b) implies d == 0 && p
        == path by {
        assert(node(geo, v, inode, d, p) == node(geo, v, inode, 0, path));
    }
    lemma_tree_after_giving_back(geo, v, inode, b, 0, path);
    let w = block_released(geo, v, b)->0;
    assert(heads_cut(inode, kept, 0, path)) by {
        assert forall|i: int| 0 <= i < 12 implies #[trigger] kept.data.direct[i] == if path
            == seq![i] {
            0
        } else {
            inode.data.direct[i]
        } by {
            assert(path[0] == idx);
            assert(seq![i][0] == i);
        }
    }
    lemma_head_cut(geo, w, inode, kept, 0, path);
    assert forall|d: nat, p: Seq<int>|
        is_place(geo, d, p) && is_leaf(d, p) implies #[trigger] node(geo, w, kept, d, p) == if d
        == 0 && p == path {
        Some(0u32)
    } else {
        node(geo, v, inode, d, p)
    } by {
        assert(node(geo, w, inode, d, p) == node(geo, v, inode, d, p));
    }
    assert forall|d: nat, p: Seq<int>|
        {
            &&& is_place(geo, d, p)
            &&& is_leaf(d, p)
            &&& !(d == 0 && p == path)
            &&& (#[trigger] node(geo, v, inode, d, p)) != Some(0u32)
        } implies w.blocks[node(geo, v, inode, d, p)->0 as int] == v.blocks[node(
        geo,
        v,
        inode,
        d,
        p,
    )->0 as int] by {
        assert(is_file_block(geo, v, node(geo, v, inode, d, p)->0 as int));
    }
}

/// What `pruned_to` says from the root on, as the loss of one block of data.
proof fn lemma_root_cut(
    geo: Geometry,
    v: Volume,
    inode: DiskInode,
    w: Volume,
    kept: DiskInode,
    depth: nat,
    full: Seq<int>,
    gone: bool,
)
    requires
        1 <= depth <= 3,
        is_place(geo, depth, full),
        full.len() == depth,
        sound_file(geo, v, inode),
        pruned_to(geo, v, inode, w, depth, Seq::empty(), full, gone),
        kept.data == inode.data,
        kept.size == inode.size,
    ensures
        leaf_cut(
            geo,
            v,
            inode,
            w,
            if gone {
                with_root(kept, depth, 0)
            } else {
                kept
            },
            depth,
            full,
        ),
{
    let none = Seq::<int>::empty();
    let end = if gone {
        with_root(kept, depth, 0)
    } else {
        kept
    };
    if gone {
        assert(heads_cut(inode, end, depth, none));
        lemma_head_cut(geo, w, inode, end, depth, none);
    } else {
        lemma_sound_same_pointers(geo, w, inode, kept);
        assert forall|d: nat, p: Seq<int>| #[trigger] node(geo, w, kept, d, p) == node(
            geo,
            w,
            inode,
            d,
            p,
        ) by {
            lemma_same_pointers(geo, w, inode, kept, d, p);
        }
    }
    assert forall|d: nat, p: Seq<int>|
        is_place(geo, d, p) && is_leaf(d, p) implies #[trigger] node(geo, w, end, d, p) == if d
        == depth && p == full {
        Some(0u32)
    } else {
        node(geo, v, inode, d, p)
    } by {
        if d == depth {
            assert(full.take(p.len() as int) =~= full);
            assert(p.len() > 0);
        }
        assert(node(geo, w, end, d, p) == node(geo, w, inode, d, p));
    }
}

/// Clearing a block of a file makes it a hole, and every other block holds what
/// it held.
proof fn lemma_file_block_cleared(geo: Geometry, v: Volume, inode: DiskInode, idx: int)
    requires
        laid_out(geo, v),
        sound_file(geo, v, inode),
        0 <= idx,
        file_block_cleared(geo, v, inode, idx).0 is Ok,
    ensures
        ({
            let (_, w, kept) = file_block_cleared(geo, v, inode, idx);
            one_changed(geo, v, inode, w, kept, idx, zeroes(geo.bs() as nat))
        }),
{
    reveal(file_block_cleared);
    let (_, w, kept) = file_block_cleared(geo, v, inode, idx);
    let (depth, path) = path_of(geo, idx)->0;
    let none = Seq::<int>::empty();
    lemma_path(geo, idx);
    assert(none + path =~= path);
    assert(leaf_cut(geo, v, inode, w, kept, depth, path)) by {
        if depth == 0 {
            assert(path =~= seq![idx]);
            if inode.data.direct[idx] != 0 {
                lemma_direct_cleared(geo, v, inode, idx);
            }
        } else if root_of(inode, depth) == 0 {
            lemma_hole(geo, v, inode, depth, none, path);
        } else {
            lemma_pruned(geo, v, inode, depth, none, root_of(inode, depth), path);
            let (r, after, end) = pruned(geo, v, inode, root_of(inode, depth), path);
            lemma_root_cut(geo, v, inode, after, end, depth, path, r->Ok_0);
        }
    }
    assert forall|j: int| 0 <= j implies #[trigger] file_data(geo, w, kept, j) == if j == idx {
        Some(zeroes(geo.bs() as nat))
    } else {
        file_data(geo, v, inode, j)
    } by {
        lemma_resolved(geo, v, inode, j);
        lemma_resolved(geo, w, kept, j);
        if path_of(geo, j) is Some {
            lemma_path(geo, j);
            let (d, p) = path_of(geo, j)->0;
            if j != idx {
                assert(!(d == depth && p == path));
            }
            assert(node(geo, w, kept, d, p) == if d == depth && p == path {
                Some(0u32)
            } else {
                node(geo, v, inode, d, p)
            });
            let x = node(geo, v, inode, d, p)->0;
            if j != idx && x != 0 {
                assert(is_file_block(geo, v, x as int));
            }
        }
    }
}

/// A run of blocks of a file has become holes, and every other block holds what
/// it held.
pub open spec fn run_cleared(
    geo: Geometry,
    v: Volume,
    inode: DiskInode,
    w: Volume,
    kept: DiskInode,
    first: int,
    end: int,
) -> bool {
    &&& laid_out(geo, w)
    &&& same_layout(v, w)
    &&& sound_file(geo, w, kept)
    &&& kept.size == inode.size
    &&& forall|j: int|
        0 <= j ==> #[trigger] file_data(geo, w, kept, j) == if first <= j < end {
            Some(zeroes(geo.bs() as nat))
        } else {
            file_data(geo, v, inode, j)
        }
}

proof fn lemma_blocks_cleared(geo: Geometry, v: Volume, inode: DiskInode, idx: int, end: int)
    requires
        laid_out(geo, v),
        sound_file(geo, v, inode),
        0 <= idx,
        blocks_cleared(geo, v, inode, idx, end).0 is Ok,
    ensures
        ({
            let (_, w, kept) = blocks_cleared(geo, v, inode, idx, end);
            run_cleared(geo, v, inode, w, kept, idx, end)
        }),
    decreases end - idx,
{
    if idx < end {
        lemma_file_block_cleared(geo, v, inode, idx);
        let (_, u, mid) = file_block_cleared(geo, v, inode, idx);
        lemma_blocks_cleared(geo, u, mid, idx + 1, end);
        let (_, w, kept) = blocks_cleared(geo, u, mid, idx + 1, end);
        assert(same_layout(v, w)) by {
            assert forall|g: int| 0 <= g < v.groups.len() implies (
            #[trigger] w.groups[g]).block_bitmap == v.groups[g].block_bitmap
                && w.groups[g].inode_bitmap == v.groups[g].inode_bitmap
                && w.groups[g].inode_table == v.groups[g].inode_table by {
                assert(u.groups[g].block_bitmap == v.groups[g].block_bitmap);
            }
        }
        assert forall|j: int| 0 <= j implies #[trigger] file_data(geo, w, kept, j) == if idx <= j
            < end {
            Some(zeroes(geo.bs() as nat))
        } else {
            file_data(geo, v, inode, j)
        } by {
            assert(file_data(geo, u, mid, j) == if j == idx {
                Some(zeroes(geo.bs() as nat))
            } else {
                file_data(geo, v, inode, j)
            });
        }
    }
}

/// What a block of a file holds once the file has been cut off at `size`: the
/// bytes from there to the end of the block are zeroes, and the blocks behind it
/// that the file had are holes.
pub open spec fn data_after_cut(
    geo: Geometry,
    v: Volume,
    inode: DiskInode,
    size: int,
    j: int,
) -> Option<Seq<u8>> {
    let at = size % geo.bs();
    if j == size / geo.bs() && at != 0 {
        match file_data(geo, v, inode, j) {
            Some(data) => Some(patched(data, at, zeroes((geo.bs() - at) as nat))),
            None => None,
        }
    } else if block_count(geo, size) <= j < block_count(geo, inode.size as int) {
        Some(zeroes(geo.bs() as nat))
    } else {
        file_data(geo, v, inode, j)
    }
}

proof fn lemma_tail_cleared(geo: Geometry, v: Volume, inode: DiskInode, size: int)
    requires
        laid_out(geo, v),
        sound_file(geo, v, inode),
        0 <= size,
        tail_cleared(geo, v, inode, size) is Some,
    ensures
        ({
            let w = tail_cleared(geo, v, inode, size)->0;
            let at = size % geo.bs();
            &&& laid_out(geo, w)
            &&& same_layout(v, w)
            &&& sound_file(geo, w, inode)
            &&& forall|j: int|
                0 <= j ==> #[trigger] file_data(geo, w, inode, j) == if j == size / geo.bs() && at
                    != 0 {
                    match file_data(geo, v, inode, j) {
                        Some(data) => Some(patched(data, at, zeroes((geo.bs() - at) as nat))),
                        None => None,
                    }
                } else {
                    file_data(geo, v, inode, j)
                }
        }),
{
    let w = tail_cleared(geo, v, inode, size)->0;
    let bs = geo.bs();
    let at = size % bs;
    let idx = size / bs;
    assert(idx >= 0) by (nonlinear_arith)
        requires
            size >= 0,
            bs > 0,
            idx == size / bs,
    ;
    vstd::arithmetic::div_mod::lemma_mod_bound(size, bs);
    if at != 0 {
        let block = resolved(geo, v, inode, idx)->0;
        lemma_resolved(geo, v, inode, idx);
        lemma_path(geo, idx);
        if block != 0 {
            let (depth, path) = path_of(geo, idx)->0;
            assert(is_file_block(geo, v, block as int));
            let data = v.blocks[block as int];
            let changed = patched(data, at, zeroes((bs - at) as nat));
            lemma_one_block_written(geo, v, inode, idx, block, v, inode, changed);
        } else {
            let blank = zeroes(bs as nat);
            assert(file_data(geo, v, inode, idx) == Some(blank));
            assert(patched(blank, at, zeroes((bs - at) as nat)) =~= blank);
        }
    }
}

/// A file that has been cut off holds what it held up to its new size, and
/// nothing but zeroes in the blocks that it had beyond. Its inode on disk has the
/// new size, and the file stays sound.
pub proof fn law_truncated_file_is_cut_off(
    geo: Geometry,
    v: Volume,
    num: u32,
    inode: DiskInode,
    size: u32,
    j: int,
)
    requires
        laid_out(geo, v),
        sound_file(geo, v, inode),
        size < inode.size,
        resized(geo, v, num, inode, size).0 is Ok,
        0 <= j,
    ensures
        ({
            let (_, after, kept) = resized(geo, v, num, inode, size);
            &&& laid_out(geo, after)
            &&& sound_file(geo, after, kept)
            &&& kept.size == size
            &&& stored_inode(geo, after, num) == Some(kept)
            &&& file_data(geo, after, kept, j) == data_after_cut(geo, v, inode, size as int, j)
        }),
{
    let (_, after, kept) = resized(geo, v, num, inode, size);
    let cleared = tail_cleared(geo, v, inode, size as int)->0;
    let first = block_count(geo, size as int);
    let end = block_count(geo, inode.size as int);
    let bs = geo.bs();
    assert(first >= 0 && (size as int % bs != 0 ==> size as int / bs < first)) by {
        lemma_block_count(geo, size as int);
    }
    lemma_tail_cleared(geo, v, inode, size as int);
    lemma_blocks_cleared(geo, cleared, inode, first, end);
    let (_, mid, cut) = blocks_cleared(geo, cleared, inode, first, end);
    assert(kept == DiskInode { size, ..cut });
    lemma_sound_same_pointers(geo, mid, cut, kept);
    lemma_inode_stored(geo, mid, num, kept, kept);
    assert(file_data(geo, after, kept, j) == file_data(geo, mid, kept, j));
    assert(file_data(geo, mid, kept, j) == file_data(geo, mid, cut, j)) by {
        lemma_resolved(geo, mid, cut, j);
        lemma_resolved(geo, mid, kept, j);
        if path_of(geo, j) is Some {
            let (d, p) = path_of(geo, j)->0;
            lemma_same_pointers(geo, mid, cut, kept, d, p);
        }
    }
    assert(file_data(geo, mid, cut, j) == if first <= j < end {
        Some(zeroes(bs as nat))
    } else {
        file_data(geo, cleared, inode, j)
    });
}

proof fn lemma_block_count(geo: Geometry, size: int)
    requires
        geo.wf(),
        0 <= size,
    ensures
        0 <= block_count(geo, size),
        size % geo.bs() != 0 ==> block_count(geo, size) == size / geo.bs() + 1,
{
    let bs = geo.bs();
    let q = size / bs;
    let r = size % bs;
    vstd::arithmetic::div_mod::lemma_fundamental_div_mod(size, bs);
    vstd::arithmetic::div_mod::lemma_mod_bound(size, bs);
    assert(q >= 0) by (nonlinear_arith)
        requires
            size >= 0,
            bs > 0,
            q == size / bs,
    ;
    if r != 0 {
        assert(size + bs - 1 == (q + 1) * bs + (r - 1)) by (nonlinear_arith)
            requires
                size == bs * q + r,
        ;
        vstd::arithmetic::div_mod::lemma_fundamental_div_mod_converse(
            size + bs - 1,
            bs,
            q + 1,
            r - 1,
        );
    } else {
        assert((size + bs - 1) / bs >= 0) by (nonlinear_arith)
            requires
                size >= 0,
                bs > 0,
        ;
    }
}

} // verus!
