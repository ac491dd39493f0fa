//! What becomes of the blocks of a file that is given back.

use crate::storage::fs::ext2::cutting::{lemma_bit_cleared, lemma_given_back};
use crate::storage::fs::ext2::obj::dir::{dropped, one_link_less};
use crate::storage::fs::ext2::structs::DiskInode;
use crate::storage::fs::ext2::tree::{
    in_use, is_file_block, is_leaf, is_meta, is_place, laid_out, lemma_resolved, marked, node,
    own_bitmap, sound_file,
};
use crate::storage::fs::ext2::volume::{
    bitmap_of, block_released, content, data_released, each_released, file_released, follow,
    inode_released, is_directory, law_path_leads_to_its_block, nonzero, path_of, place_of, pointer,
    pointers_of, pointers_of_all, resolved, root_of, without_bit, Bitmap, Geometry, Volume,
};
use vstd::prelude::*;

verus! {

/// Blocks have been given back between `v` and `u`, and nothing that a file holds
/// has changed.
#[verifier::opaque]
spec fn less_in_use(geo: Geometry, v: Volume, u: Volume) -> bool {
    &&& laid_out(geo, u)
    &&& u.blocks.len() == v.blocks.len()
    &&& forall|x: int| #[trigger] is_meta(geo, u, x) == is_meta(geo, v, x)
    &&& forall|x: int| #[trigger] in_use(geo, u, x) ==> in_use(geo, v, x)
    &&& forall|x: int|
        0 <= x < v.blocks.len() && !is_meta(geo, v, x) ==> #[trigger] u.blocks[x] == v.blocks[x]
}

/// A block that is none of those that the volume is managed by.
spec fn can_be_freed(geo: Geometry, v: Volume, b: u32) -> bool {
    0 < b < v.blocks.len() && !is_meta(geo, v, b as int)
}

proof fn lemma_marked(geo: Geometry, u: Volume, b: u32)
    requires
        laid_out(geo, u),
        b > 0,
    ensures
        block_released(geo, u, b) is Some <==> in_use(geo, u, b as int),
{
    let (g, i) = place_of(geo, Bitmap::Blocks, b as int);
    let from = geo.first_data_block();
    let per = geo.blocks_per_group as int;
    assert(g >= 0) by (nonlinear_arith)
        requires
            g == (b - from) / per,
            b - from >= 0,
            per > 0,
    ;
    if g < u.groups.len() {
        assert(own_bitmap(geo, u, Bitmap::Blocks, g));
        let m = u.groups[g].block_bitmap as int;
        assert(content(geo, u, m) == Some(u.blocks[m]));
    }
}

proof fn lemma_freed(geo: Geometry, v: Volume, u: Volume, b: u32)
    requires
        less_in_use(geo, v, u),
        can_be_freed(geo, v, b),
        block_released(geo, u, b) is Some,
    ensures
        less_in_use(geo, v, block_released(geo, u, b)->0),
        less_in_use(geo, u, block_released(geo, u, b)->0),
        !in_use(geo, block_released(geo, u, b)->0, b as int),
{
    reveal(less_in_use);
    lemma_marked(geo, u, b);
    assert(is_meta(geo, u, b as int) == is_meta(geo, v, b as int));
    assert(is_file_block(geo, u, b as int));
    lemma_given_back(geo, u, b);
    let w = block_released(geo, u, b)->0;
    assert forall|x: int| #[trigger] is_meta(geo, w, x) == is_meta(geo, v, x) by {
        assert(is_meta(geo, u, x) == is_meta(geo, v, x));
    }
    assert forall|x: int| #[trigger] in_use(geo, w, x) implies in_use(geo, v, x) by {
        assert(in_use(geo, u, x));
    }
    assert forall|x: int| 0 <= x < v.blocks.len() && !is_meta(geo, v, x) implies
        #[trigger] w.blocks[x] == v.blocks[x] by {
        assert(is_meta(geo, u, x) == is_meta(geo, v, x));
        assert(u.blocks[x] == v.blocks[x]);
    }
}

/// A block that is not in use stays so.
proof fn lemma_stays_free(geo: Geometry, u: Volume, w: Volume, b: int)
    requires
        less_in_use(geo, u, w),
        !in_use(geo, u, b),
    ensures
        !in_use(geo, w, b),
{
    reveal(less_in_use);
    if in_use(geo, w, b) {
        assert(in_use(geo, u, b));
    }
}

proof fn lemma_less_twice(geo: Geometry, u: Volume, v: Volume, w: Volume)
    requires
        less_in_use(geo, u, v),
        less_in_use(geo, v, w),
    ensures
        less_in_use(geo, u, w),
{
    reveal(less_in_use);
    assert forall|x: int| #[trigger] is_meta(geo, w, x) == is_meta(geo, u, x) by {
        assert(is_meta(geo, v, x) == is_meta(geo, u, x));
    }
    assert forall|x: int| #[trigger] in_use(geo, w, x) implies in_use(geo, u, x) by {
        assert(in_use(geo, v, x));
    }
    assert forall|x: int| 0 <= x < u.blocks.len() && !is_meta(geo, u, x) implies
        #[trigger] w.blocks[x] == u.blocks[x] by {
        assert(is_meta(geo, v, x) == is_meta(geo, u, x));
        assert(v.blocks[x] == u.blocks[x]);
    }
}

proof fn lemma_each_freed(geo: Geometry, v: Volume, u: Volume, blocks: Seq<u32>)
    requires
        less_in_use(geo, v, u),
        forall|i: int| 0 <= i < blocks.len() ==> can_be_freed(geo, v, #[trigger] blocks[i]),
    ensures
        less_in_use(geo, v, each_released(geo, u, blocks)),
        less_in_use(geo, u, each_released(geo, u, blocks)),
        forall|i: int|
            0 <= i < blocks.len() ==> !in_use(
                geo,
                each_released(geo, u, blocks),
                #[trigger] blocks[i] as int,
            ),
    decreases blocks.len(),
{
    lemma_same_in_use(geo, v, u);
    if blocks.len() > 0 {
        let rest = blocks.drop_last();
        let last = blocks.last();
        assert forall|i: int| 0 <= i < rest.len() implies can_be_freed(
            geo,
            v,
            #[trigger] rest[i],
        ) by {
            assert(rest[i] == blocks[i]);
        }
        lemma_each_freed(geo, v, u, rest);
        let mid = each_released(geo, u, rest);
        let end = each_released(geo, u, blocks);
        assert(can_be_freed(geo, v, blocks[blocks.len() - 1]));
        assert(laid_out(geo, mid)) by {
            reveal(less_in_use);
        }
        lemma_marked(geo, mid, last);
        if block_released(geo, mid, last) is Some {
            lemma_freed(geo, v, mid, last);
            lemma_less_twice(geo, u, mid, end);
        }
        assert forall|i: int| 0 <= i < blocks.len() implies !in_use(
            geo,
            end,
            #[trigger] blocks[i] as int,
        ) by {
            if i < rest.len() {
                assert(rest[i] == blocks[i]);
                if end != mid {
                    lemma_stays_free(geo, mid, end, blocks[i] as int);
                }
            }
        }
    }
}

/// What a path leads to is the same while only blocks are given back.
proof fn lemma_follow_same(
    geo: Geometry,
    v: Volume,
    u: Volume,
    inode: DiskInode,
    depth: nat,
    prefix: Seq<int>,
    table: u32,
    rest: Seq<int>,
)
    requires
        less_in_use(geo, v, u),
        sound_file(geo, v, inode),
        depth > 0,
        is_place(geo, depth, prefix + rest),
        node(geo, v, inode, depth, prefix) == Some(table),
    ensures
        follow(geo, u, table, rest) == follow(geo, v, table, rest),
    decreases rest.len(),
{
    reveal(less_in_use);
    if rest.len() > 0 && table != 0 {
        assert forall|i: int| 0 <= i < prefix.len() implies 0 <= #[trigger] prefix[i]
            < geo.pointers() by {
            assert((prefix + rest)[i] == prefix[i]);
        }
        assert(is_place(geo, depth, prefix));
        let data = v.blocks[table as int];
        let next = prefix.push(rest[0]);
        assert(next + rest.skip(1) =~= prefix + rest);
        assert(next.drop_last() =~= prefix);
        lemma_follow_same(
            geo,
            v,
            u,
            inode,
            depth,
            next,
            pointer(data, rest[0]),
            rest.skip(1),
        );
    }
}

proof fn lemma_resolved_same(geo: Geometry, v: Volume, u: Volume, inode: DiskInode, idx: int)
    requires
        geo.wf(),
        less_in_use(geo, v, u),
        sound_file(geo, v, inode),
        0 <= idx,
    ensures
        resolved(geo, u, inode, idx) == resolved(geo, v, inode, idx),
        resolved(geo, v, inode, idx) matches Some(b) ==> b == 0 || can_be_freed(geo, v, b),
{
    law_path_leads_to_its_block(geo, idx);
    lemma_resolved(geo, v, inode, idx);
    if let Some((depth, path)) = path_of(geo, idx) {
        assert(is_place(geo, depth, path));
        if depth > 0 {
            let none = Seq::<int>::empty();
            assert(none + path =~= path);
            lemma_follow_same(geo, v, u, inode, depth, none, root_of(inode, depth), path);
        }
        assert(node(geo, v, inode, depth, path) is Some);
    }
}

proof fn lemma_data_freed(
    geo: Geometry,
    v: Volume,
    u: Volume,
    inode: DiskInode,
    idx: int,
    j: int,
)
    requires
        geo.wf(),
        less_in_use(geo, v, u),
        sound_file(geo, v, inode),
        0 <= idx,
        data_released(geo, u, inode, idx).0 is Ok,
    ensures
        less_in_use(geo, v, data_released(geo, u, inode, idx).1),
        less_in_use(geo, u, data_released(geo, u, inode, idx).1),
        idx <= j < inode.size as int / geo.bs() ==> (resolved(geo, v, inode, j) matches Some(b)
            ==> b != 0 ==> !in_use(geo, data_released(geo, u, inode, idx).1, b as int)),
    decreases inode.size as int / geo.bs() - idx,
{
    lemma_same_in_use(geo, v, u);
    if idx < inode.size as int / geo.bs() {
        lemma_resolved_same(geo, v, u, inode, idx);
        match resolved(geo, u, inode, idx) {
            Some(b) => {
                let w = block_released(geo, u, b)->0;
                if b != 0 {
                    lemma_freed(geo, v, u, b);
                }
                lemma_data_freed(geo, v, w, inode, idx + 1, j);
                let end = data_released(geo, w, inode, idx + 1).1;
                lemma_less_twice(geo, u, w, end);
                if b != 0 {
                    lemma_stays_free(geo, w, end, b as int);
                }
            },
            None => {
                lemma_data_freed(geo, v, u, inode, idx + 1, j);
            },
        }
    }
}

/// The pointers of a table are those of its entries that lead somewhere.
proof fn lemma_nonzero(data: Seq<u8>, n: int)
    ensures
        forall|i: int|
            0 <= i < nonzero(data, n).len() ==> exists|j: int|
                0 <= j < n && #[trigger] pointer(data, j) == #[trigger] nonzero(data, n)[i]
                    && pointer(data, j) != 0,
        forall|j: int|
            0 <= j < n && #[trigger] pointer(data, j) != 0 ==> nonzero(data, n).contains(
                pointer(data, j),
            ),
    decreases n,
{
    if n > 0 {
        lemma_nonzero(data, n - 1);
        let rest = nonzero(data, n - 1);
        let all = nonzero(data, n);
        assert forall|i: int| 0 <= i < all.len() implies exists|j: int|
            0 <= j < n && #[trigger] pointer(data, j) == #[trigger] all[i] && pointer(data, j)
                != 0 by {
            if i < rest.len() {
                assert(all[i] == rest[i]);
                let j = choose|j: int|
                    0 <= j < n - 1 && #[trigger] pointer(data, j) == rest[i] && pointer(data, j)
                        != 0;
                assert(pointer(data, j) == all[i]);
            } else {
                assert(pointer(data, n - 1) == all[i]);
            }
        }
        assert forall|j: int| 0 <= j < n && #[trigger] pointer(data, j) != 0 implies all.contains(
            pointer(data, j),
        ) by {
            if j < n - 1 {
                let i = rest.index_of(pointer(data, j));
                assert(all[i] == pointer(data, j));
            } else {
                assert(all[all.len() - 1] == pointer(data, j));
            }
        }
    }
}

/// The tables below a table of a file, while only blocks have been given back.
proof fn lemma_below(
    geo: Geometry,
    v: Volume,
    u: Volume,
    inode: DiskInode,
    depth: nat,
    prefix: Seq<int>,
    table: u32,
)
    requires
        geo.wf(),
        less_in_use(geo, v, u),
        sound_file(geo, v, inode),
        0 < depth,
        is_place(geo, depth, prefix),
        prefix.len() < depth,
        node(geo, v, inode, depth, prefix) == Some(table),
        table != 0,
    ensures
        can_be_freed(geo, v, table),
        pointers_of(geo, u, table) == nonzero(v.blocks[table as int], geo.pointers()),
        forall|i: int|
            0 <= i < pointers_of(geo, u, table).len() ==> can_be_freed(
                geo,
                v,
                #[trigger] pointers_of(geo, u, table)[i],
            ),
        forall|j: int|
            0 <= j < geo.pointers() && (#[trigger] node(geo, v, inode, depth, prefix.push(j)))
                != Some(0u32) ==> pointers_of(geo, u, table).contains(
                node(geo, v, inode, depth, prefix.push(j))->0,
            ),
{
    reveal(less_in_use);
    let data = v.blocks[table as int];
    let all = pointers_of(geo, u, table);
    assert(u.blocks[table as int] == data);
    lemma_nonzero(data, geo.pointers());
    assert forall|j: int| 0 <= j < geo.pointers() implies {
        &&& is_place(geo, depth, #[trigger] prefix.push(j))
        &&& node(geo, v, inode, depth, prefix.push(j)) == Some(pointer(data, j))
    } by {
        assert(prefix.push(j).drop_last() =~= prefix);
        assert forall|i: int| 0 <= i < prefix.push(j).len() implies 0 <= #[trigger] prefix.push(
            j,
        )[i] < geo.pointers() by {
            if i < prefix.len() {
                assert(prefix[i] == prefix.push(j)[i]);
            }
        }
    }
    assert forall|i: int| 0 <= i < all.len() implies can_be_freed(geo, v, #[trigger] all[i]) by {
        let j = choose|j: int|
            0 <= j < geo.pointers() && #[trigger] pointer(data, j) == all[i] && pointer(data, j)
                != 0;
        assert(node(geo, v, inode, depth, prefix.push(j)) == Some(pointer(data, j)));
    }
}

/// A table is the one at index `j` below the root of the third tree.
spec fn is_third(geo: Geometry, v: Volume, inode: DiskInode, table: u32, j: int) -> bool {
    &&& 0 <= j < geo.pointers()
    &&& table != 0
    &&& node(geo, v, inode, 3, seq![j]) == Some(table)
}

spec fn is_some_third(geo: Geometry, v: Volume, inode: DiskInode, table: u32) -> bool {
    exists|j: int| is_third(geo, v, inode, table, j)
}

proof fn lemma_all_below(
    geo: Geometry,
    v: Volume,
    u: Volume,
    inode: DiskInode,
    tables: Seq<u32>,
)
    requires
        geo.wf(),
        less_in_use(geo, v, u),
        sound_file(geo, v, inode),
        forall|i: int|
            0 <= i < tables.len() ==> is_some_third(geo, v, inode, #[trigger] tables[i]),
    ensures
        forall|i: int|
            0 <= i < pointers_of_all(geo, u, tables).len() ==> can_be_freed(
                geo,
                v,
                #[trigger] pointers_of_all(geo, u, tables)[i],
            ),
        forall|i: int, b: u32|
            0 <= i < tables.len() && #[trigger] pointers_of(geo, u, tables[i]).contains(b)
                ==> pointers_of_all(geo, u, tables).contains(b),
    decreases tables.len(),
{
    if tables.len() > 0 {
        let rest = tables.drop_last();
        let n = tables.len() - 1;
        assert forall|i: int| 0 <= i < rest.len() implies is_some_third(
            geo,
            v,
            inode,
            #[trigger] rest[i],
        ) by {
            assert(rest[i] == tables[i]);
        }
        lemma_all_below(geo, v, u, inode, rest);
        let last = tables[n];
        assert(is_some_third(geo, v, inode, last));
        let j = choose|j: int| is_third(geo, v, inode, last, j);
        lemma_below(geo, v, u, inode, 3, seq![j], last);
        let before = pointers_of_all(geo, u, rest);
        let own = pointers_of(geo, u, last);
        let all = pointers_of_all(geo, u, tables);
        assert(all == before + own);
        assert forall|i: int| 0 <= i < all.len() implies can_be_freed(
            geo,
            v,
            #[trigger] all[i],
        ) by {
            if i < before.len() {
                assert(all[i] == before[i]);
            } else {
                assert(all[i] == own[i - before.len()]);
            }
        }
        assert forall|i: int, b: u32|
            0 <= i < tables.len() && #[trigger] pointers_of(geo, u, tables[i]).contains(
                b,
            ) implies all.contains(b) by {
            if i < n {
                assert(rest[i] == tables[i]);
                assert(pointers_of(geo, u, rest[i]).contains(b));
                let k = before.index_of(b);
                assert(all[k] == b);
            } else {
                let k = own.index_of(b);
                assert(all[before.len() + k] == b);
            }
        }
    }
}

proof fn lemma_same_in_use(geo: Geometry, v: Volume, u: Volume)
    requires
        less_in_use(geo, v, u) || (u == v && laid_out(geo, v)),
    ensures
        less_in_use(geo, u, u),
{
    reveal(less_in_use);
}

/// The second tree of a file is given back: its root, and the tables below.
proof fn lemma_second_freed(
    geo: Geometry,
    v: Volume,
    u: Volume,
    inode: DiskInode,
    j: int,
)
    requires
        geo.wf(),
        less_in_use(geo, v, u),
        sound_file(geo, v, inode),
        inode.data.double_indirect != 0,
        0 <= j < geo.pointers(),
    ensures
        ({
            let double = inode.data.double_indirect;
            let w = each_released(geo, u, pointers_of(geo, u, double));
            &&& can_be_freed(geo, v, double)
            &&& less_in_use(geo, v, w)
            &&& less_in_use(geo, u, w)
            &&& node(geo, v, inode, 2, seq![j]) != Some(0u32) ==> !in_use(
                geo,
                w,
                node(geo, v, inode, 2, seq![j])->0 as int,
            )
        }),
{
    let double = inode.data.double_indirect;
    let none = Seq::<int>::empty();
    let below = pointers_of(geo, u, double);
    lemma_below(geo, v, u, inode, 2, none, double);
    lemma_each_freed(geo, v, u, below);
    assert(none.push(j) =~= seq![j]);
    if node(geo, v, inode, 2, seq![j]) != Some(0u32) {
        let i = below.index_of(node(geo, v, inode, 2, seq![j])->0);
        assert(!in_use(geo, each_released(geo, u, below), below[i] as int));
    }
}

/// The third tree of a file is given back: its root, and the tables below in both
/// levels.
proof fn lemma_third_freed(
    geo: Geometry,
    v: Volume,
    u: Volume,
    inode: DiskInode,
    j: int,
    k: int,
)
    requires
        geo.wf(),
        less_in_use(geo, v, u),
        sound_file(geo, v, inode),
        inode.data.triple_indirect != 0,
        0 <= j < geo.pointers(),
        0 <= k < geo.pointers(),
    ensures
        ({
            let triple = inode.data.triple_indirect;
            let outer = pointers_of(geo, u, triple);
            let mid = each_released(geo, u, pointers_of_all(geo, u, outer));
            let w = each_released(geo, mid, outer);
            let first = node(geo, v, inode, 3, seq![j]);
            let second = node(geo, v, inode, 3, seq![j, k]);
            &&& can_be_freed(geo, v, triple)
            &&& less_in_use(geo, v, w)
            &&& less_in_use(geo, u, w)
            &&& first != Some(0u32) ==> !in_use(geo, w, first->0 as int)
            &&& second != Some(0u32) ==> !in_use(geo, w, second->0 as int)
        }),
{
    let triple = inode.data.triple_indirect;
    let none = Seq::<int>::empty();
    let outer = pointers_of(geo, u, triple);
    let inner = pointers_of_all(geo, u, outer);
    let data = v.blocks[triple as int];
    lemma_below(geo, v, u, inode, 3, none, triple);
    lemma_nonzero(data, geo.pointers());
    assert forall|i: int| 0 <= i < outer.len() implies is_some_third(
        geo,
        v,
        inode,
        #[trigger] outer[i],
    ) by {
        let j = choose|j: int|
            0 <= j < geo.pointers() && #[trigger] pointer(data, j) == outer[i] && pointer(data, j)
                != 0;
        lemma_under_root(geo, v, inode, j);
        assert(is_third(geo, v, inode, outer[i], j));
    }
    lemma_all_below(geo, v, u, inode, outer);
    let mid = each_released(geo, u, inner);
    let w = each_released(geo, mid, outer);
    lemma_each_freed(geo, v, u, inner);
    lemma_each_freed(geo, v, mid, outer);
    lemma_less_twice(geo, u, mid, w);
    let first = node(geo, v, inode, 3, seq![j]);
    let second = node(geo, v, inode, 3, seq![j, k]);
    assert(none.push(j) =~= seq![j]);
    assert(seq![j].push(k) =~= seq![j, k]);
    assert(seq![j, k].drop_last() =~= seq![j]);
    assert(is_place(geo, 3, seq![j]));
    if first != Some(0u32) {
        let i = outer.index_of(first->0);
        assert(!in_use(geo, w, outer[i] as int));
        if second != Some(0u32) {
            lemma_below(geo, v, u, inode, 3, seq![j], first->0);
            assert(pointers_of(geo, u, outer[i]).contains(second->0));
            let n = inner.index_of(second->0);
            assert(!in_use(geo, mid, inner[n] as int));
            lemma_stays_free(geo, mid, w, second->0 as int);
        }
    }
}

proof fn lemma_under_root(geo: Geometry, v: Volume, inode: DiskInode, j: int)
    requires
        sound_file(geo, v, inode),
        inode.data.triple_indirect != 0,
        0 <= j < geo.pointers(),
    ensures
        node(geo, v, inode, 3, seq![j]) == Some(
            pointer(v.blocks[inode.data.triple_indirect as int], j),
        ),
{
    let none = Seq::<int>::empty();
    assert(seq![j].drop_last() =~= none);
    assert(is_place(geo, 3, none));
    assert(node(geo, v, inode, 3, none) == Some(inode.data.triple_indirect));
}

/// Once all blocks of a sound file have been given back, none of them is in use:
/// neither a block with data that the file fills, nor a table of pointers,
/// however far down it stands. No block has come to be in use, and the volume is
/// laid out as it should be.
pub proof fn law_released_file_holds_no_block(
    geo: Geometry,
    v: Volume,
    inode: DiskInode,
    idx: int,
    depth: nat,
    path: Seq<int>,
    x: int,
)
    requires
        laid_out(geo, v),
        sound_file(geo, v, inode),
        file_released(geo, v, inode).0 is Ok,
        0 <= idx,
        depth > 0,
        is_place(geo, depth, path),
        !is_leaf(depth, path),
    ensures
        ({
            let after = file_released(geo, v, inode).1;
            let table = node(geo, v, inode, depth, path)->0;
            &&& idx < inode.size as int / geo.bs() ==> (resolved(geo, v, inode, idx) matches Some(b)
                ==> b != 0 ==> !in_use(geo, after, b as int))
            &&& table != 0 ==> !in_use(geo, after, table as int)
            &&& in_use(geo, after, x) ==> in_use(geo, v, x)
            &&& laid_out(geo, after)
        }),
{
    let none = Seq::<int>::empty();
    let single = inode.data.single_indirect;
    let double = inode.data.double_indirect;
    let triple = inode.data.triple_indirect;
    let j = if path.len() > 0 {
        path[0]
    } else {
        0
    };
    let k = if path.len() > 1 {
        path[1]
    } else {
        0
    };
    lemma_same_in_use(geo, v, v);
    lemma_data_freed(geo, v, v, inode, 0, idx);
    let a = data_released(geo, v, inode, 0).1;
    let b = block_released(geo, a, single)->0;
    assert(is_place(geo, 1, none) && node(geo, v, inode, 1, none) == Some(single));
    if single != 0 {
        lemma_freed(geo, v, a, single);
    } else {
        lemma_same_in_use(geo, v, a);
    }
    let c = if double == 0 {
        b
    } else {
        each_released(geo, b, pointers_of(geo, b, double))
    };
    if double != 0 {
        lemma_second_freed(geo, v, b, inode, j);
    } else {
        lemma_same_in_use(geo, v, b);
    }
    let d = block_released(geo, c, double)->0;
    if double != 0 {
        lemma_freed(geo, v, c, double);
    } else {
        lemma_same_in_use(geo, v, c);
    }
    let e = if triple == 0 {
        d
    } else {
        let outer = pointers_of(geo, d, triple);
        each_released(geo, each_released(geo, d, pointers_of_all(geo, d, outer)), outer)
    };
    if triple != 0 {
        lemma_third_freed(geo, v, d, inode, j, k);
    } else {
        lemma_same_in_use(geo, v, d);
    }
    let f = block_released(geo, e, triple)->0;
    if triple != 0 {
        lemma_freed(geo, v, e, triple);
    } else {
        lemma_same_in_use(geo, v, e);
    }
    assert(file_released(geo, v, inode).1 == f);
    assert(laid_out(geo, f) && (in_use(geo, f, x) ==> in_use(geo, v, x))) by {
        reveal(less_in_use);
    }
    lemma_less_twice(geo, d, e, f);
    lemma_less_twice(geo, c, d, f);
    lemma_less_twice(geo, b, c, f);
    lemma_less_twice(geo, a, b, f);
    if let Some(data) = resolved(geo, v, inode, idx) {
        if data != 0 && idx < inode.size as int / geo.bs() {
            lemma_stays_free(geo, a, f, data as int);
        }
    }
    let table = node(geo, v, inode, depth, path)->0;
    if table != 0 {
        if path.len() == 0 {
            assert(path =~= none);
            if depth == 1 {
                lemma_stays_free(geo, b, f, table as int);
            } else if depth == 2 {
                lemma_stays_free(geo, d, f, table as int);
            }
        } else if depth == 2 {
            assert(path =~= seq![j]);
            lemma_root_is_there(geo, v, inode, depth, path);
            lemma_stays_free(geo, c, f, table as int);
        } else {
            lemma_root_is_there(geo, v, inode, depth, path);
            if path.len() == 1 {
                assert(path =~= seq![j]);
            } else {
                assert(path =~= seq![j, k]);
            }
            lemma_stays_free(geo, e, f, table as int);
        }
    }
}

/// Below a root that is missing there is nothing.
proof fn lemma_root_is_there(
    geo: Geometry,
    v: Volume,
    inode: DiskInode,
    depth: nat,
    path: Seq<int>,
)
    requires
        depth > 0,
        node(geo, v, inode, depth, path) is Some,
        node(geo, v, inode, depth, path)->0 != 0,
    ensures
        root_of(inode, depth) != 0,
    decreases path.len(),
{
    if path.len() > 0 {
        lemma_root_is_there(geo, v, inode, depth, path.drop_last());
    }
}

/// An inode that is given back is no longer in use, and counts as free in its
/// group. Nothing is said of blocks.
proof fn lemma_inode_freed(geo: Geometry, v: Volume, num: u32, is_dir: bool)
    requires
        laid_out(geo, v),
        inode_released(geo, v, num, is_dir) is Some,
    ensures
        ({
            let w = inode_released(geo, v, num, is_dir)->0;
            let (g, _) = place_of(geo, Bitmap::Inodes, num as int);
            &&& marked(geo, v, Bitmap::Inodes, num as int)
            &&& !marked(geo, w, Bitmap::Inodes, num as int)
            &&& v.groups[g].free_inodes_count < 0xFFFF ==> w.groups[g].free_inodes_count
                == v.groups[g].free_inodes_count + 1
            &&& forall|x: int| #[trigger] in_use(geo, w, x) == in_use(geo, v, x)
        }),
{
    let kind = Bitmap::Inodes;
    let (g, i) = place_of(geo, kind, num as int);
    let per = geo.inodes_per_group as int;
    assert(g >= 0) by (nonlinear_arith)
        requires
            g == (num - 1) / per,
            num - 1 >= 0,
            per > 0,
    ;
    vstd::arithmetic::div_mod::lemma_mod_bound(num - 1, per);
    assert(own_bitmap(geo, v, kind, g));
    let n = bitmap_of(v.groups[g], kind) as int;
    let data = v.blocks[n];
    assert(content(geo, v, n) == Some(data));
    let w = inode_released(geo, v, num, is_dir)->0;
    lemma_bit_cleared(data, i, i);
    assert(n != geo.group_block(g) && n != geo.super_block());
    assert(w.blocks[n] == without_bit(data, i));
    assert(w.groups[g].inode_bitmap == v.groups[g].inode_bitmap);
    assert forall|x: int| #[trigger] in_use(geo, w, x) == in_use(geo, v, x) by {
        let (h, _) = place_of(geo, Bitmap::Blocks, x);
        if 0 <= h < v.groups.len() {
            assert(own_bitmap(geo, v, Bitmap::Blocks, h));
            let m = bitmap_of(v.groups[h], Bitmap::Blocks) as int;
            assert(n != m && m != geo.group_block(g) && m != geo.super_block());
            assert(w.blocks[m] == v.blocks[m]);
            assert(w.groups[h].block_bitmap == v.groups[h].block_bitmap);
        }
    }
}

/// Something that loses its last name is given back whole: its inode is no longer
/// in use, nor is any block with data that it fills or any table of pointers.
pub proof fn law_last_name_gives_everything_back(
    geo: Geometry,
    v: Volume,
    num: u32,
    child: DiskInode,
    idx: int,
    depth: nat,
    path: Seq<int>,
)
    requires
        laid_out(geo, v),
        sound_file(geo, v, child),
        child.links_count <= 1,
        dropped(geo, v, num, one_link_less(child)).0 is Ok,
        0 <= idx,
        depth > 0,
        is_place(geo, depth, path),
        !is_leaf(depth, path),
    ensures
        ({
            let after = dropped(geo, v, num, one_link_less(child)).1;
            let table = node(geo, v, child, depth, path)->0;
            &&& !marked(geo, after, Bitmap::Inodes, num as int)
            &&& idx < child.size as int / geo.bs() ==> (resolved(geo, v, child, idx) matches Some(b)
                ==> b != 0 ==> !in_use(geo, after, b as int))
            &&& table != 0 ==> !in_use(geo, after, table as int)
        }),
{
    let gone = one_link_less(child);
    lemma_same_tree(geo, v, child, gone);
    lemma_same_place(geo, v, child, gone, depth, path);
    lemma_resolved(geo, v, child, idx);
    lemma_resolved(geo, v, gone, idx);
    if let Some((d, p)) = path_of(geo, idx) {
        lemma_same_place(geo, v, child, gone, d, p);
    }
    law_released_file_holds_no_block(geo, v, gone, idx, depth, path, 0);
    lemma_inode_freed(geo, file_released(geo, v, gone).1, num, is_directory(gone));
}

/// What a tree holds does not depend on how many names the file has.
proof fn lemma_same_place(
    geo: Geometry,
    v: Volume,
    a: DiskInode,
    b: DiskInode,
    depth: nat,
    path: Seq<int>,
)
    requires
        a.data == b.data,
    ensures
        node(geo, v, a, depth, path) == node(geo, v, b, depth, path),
    decreases path.len(),
{
    if depth > 0 && path.len() > 0 {
        lemma_same_place(geo, v, a, b, depth, path.drop_last());
    }
}

proof fn lemma_same_tree(geo: Geometry, v: Volume, a: DiskInode, b: DiskInode)
    requires
        a.data == b.data,
        sound_file(geo, v, a),
    ensures
        sound_file(geo, v, b),
{
    assert forall|depth: nat, path: Seq<int>| #[trigger] node(geo, v, b, depth, path) == node(
        geo,
        v,
        a,
        depth,
        path,
    ) by {
        lemma_same_place(geo, v, a, b, depth, path);
    }
}

} // verus!
