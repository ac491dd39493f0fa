//! Which tables a mapping adds, and which an unmapping takes away.

use crate::hal::mmu::pager::{
    blocked, entry_cleared, frame, given_back, group, huge, is_page, is_table, lemma_cut,
    lemma_entry_bits, lemma_group, lemma_link, lemma_nothing_mapped, lemma_outside_all, links,
    mapping, missing, present, search, slot, table_at, under, unmap_outcome, well_linked, written,
    PagerError, Tables,
};
use crate::hal::mmu::FrameAllocator;
use vstd::prelude::*;

verus! {

/// The table at `level` on the way to page `n` has no entry but the one on
/// that way.
pub open spec fn others_absent(mem: Tables, root: u64, n: int, level: nat) -> bool {
    forall|q: int|
        #![trigger slot(mem, root, level, q)]
        q / 512 == group(n, level + 1) && q != group(n, level) ==> !(slot(
            mem,
            root,
            level,
            q,
        ) matches Some(e) && present(e))
}

/// The table at `level` on the way to page `n` is left empty when the page's
/// entry at `leaf` is cleared.
pub open spec fn emptied(mem: Tables, root: u64, n: int, leaf: nat, level: nat) -> bool
    decreases level,
{
    &&& leaf <= level < 3
    &&& table_at(mem, root, level, group(n, level + 1)) is Some
    &&& others_absent(mem, root, n, level)
    &&& level == leaf || emptied(mem, root, n, leaf, (level - 1) as nat)
}

/// The tables below `level` that are left empty when the entry of page `n` at
/// `leaf` is cleared.
pub open spec fn emptied_below(mem: Tables, root: u64, n: int, leaf: nat, level: nat) -> Set<u64> {
    Set::new(
        |t: u64|
            exists|l: nat|
                l < level && #[trigger] emptied(mem, root, n, leaf, l) && table_at(
                    mem,
                    root,
                    l,
                    group(n, l + 1),
                ) == Some(t),
    )
}

/// The table at `level` for group `p` has an entry.
pub open spec fn holds_entry(mem: Tables, root: u64, level: nat, p: int) -> bool {
    exists|q: int|
        q / 512 == p && (#[trigger] slot(mem, root, level, q)) is Some && present(
            slot(mem, root, level, q)->0,
        )
}

/// No table on the way to page `n` below `level` is empty, from `leaf` on.
pub open spec fn way_in_use(mem: Tables, root: u64, n: int, leaf: nat, level: nat) -> bool {
    forall|l: nat|
        leaf <= l < level && (#[trigger] table_at(mem, root, l, group(n, l + 1))) is Some
            ==> holds_entry(mem, root, l, group(n, l + 1))
}

/// The tables after the entry of page `n` at `leaf` has been cleared, and every
/// table below `level` that this leaves empty has been taken out.
pub open spec fn way_removed(
    mem: Tables,
    after: Tables,
    root: u64,
    n: int,
    leaf: nat,
    level: nat,
) -> bool {
    &&& forall|t: u64|
        #![trigger is_table(after, root, t)]
        #![trigger is_table(mem, root, t)]
        is_table(after, root, t) <==> is_table(mem, root, t) && !emptied_below(
            mem,
            root,
            n,
            leaf,
            level,
        ).contains(t)
    &&& way_in_use(after, root, n, leaf, level)
    &&& forall|m: nat, q: int|
        m > level || (m == level && q != group(n, level)) ==> #[trigger] slot(after, root, m, q)
            == slot(mem, root, m, q)
    &&& slot(after, root, level, group(n, level)) == if level == leaf || emptied(
        mem,
        root,
        n,
        leaf,
        (level - 1) as nat,
    ) {
        Some(0u64)
    } else {
        slot(mem, root, level, group(n, level))
    }
}

/// Below an entry that leads to no table there is none.
proof fn lemma_nothing_under(mem: Tables, root: u64, level: nat, q: int, m: nat, p: int)
    requires
        slot(mem, root, level, q) matches Some(e) ==> !links(e),
        under(m, p, level, q),
        level <= 3,
    ensures
        table_at(mem, root, m, p) is None,
    decreases level - m,
{
    if m + 1 == level {
        assert(slot(mem, root, level, p) == slot(mem, root, level, q));
    } else {
        lemma_nothing_under(mem, root, level, q, m + 1, p / 512);
        assert(slot(mem, root, m + 1, p) is None);
    }
}

/// Below an empty table there is none.
proof fn lemma_nothing_under_empty(mem: Tables, root: u64, level: nat, q: int, m: nat, p: int)
    requires
        0 < level <= 3,
        forall|s: int|
            #![trigger slot(mem, root, (level - 1) as nat, s)]
            s / 512 == q ==> (slot(mem, root, (level - 1) as nat, s) matches Some(e)
                ==> !present(e)),
        under(m, p, level, q),
        m + 1 < level,
    ensures
        table_at(mem, root, m, p) is None,
    decreases level - m,
{
    if m + 2 == level {
        assert(under(m + 1, p / 512, level, q));
        assert(p / 512 == q);
        assert(slot(mem, root, m + 1, p) matches Some(e) ==> !present(e));
    } else {
        lemma_nothing_under_empty(mem, root, level, q, m + 1, p / 512);
        assert(slot(mem, root, m + 1, p) is None);
    }
}

/// Clearing an entry that leads to no table takes no table out.
pub proof fn lemma_cleared(mem: Tables, root: u64, n: int, leaf: nat, entry: u64)
    requires
        well_linked(mem, root),
        is_page(n),
        leaf <= 2,
        table_at(mem, root, leaf, group(n, leaf + 1)) is Some,
        slot(mem, root, leaf, group(n, leaf)) matches Some(e) ==> leaf > 0 ==> !links(e),
        leaf > 0 ==> !links(entry),
    ensures
        ({
            let t = table_at(mem, root, leaf, group(n, leaf + 1))->0;
            let after = written(mem, t, group(n, leaf) % 512, entry);
            &&& forall|m: nat, p: int| #[trigger]
                table_at(after, root, m, p) == table_at(mem, root, m, p)
            &&& forall|m: nat, p: int| #[trigger]
                slot(after, root, m, p) == if m == leaf && p == group(n, leaf) {
                    Some(entry)
                } else {
                    slot(mem, root, m, p)
                }
            &&& forall|x: u64|
                #![trigger is_table(after, root, x)]
                #![trigger is_table(mem, root, x)]
                is_table(after, root, x) == is_table(mem, root, x)
        }),
{
    let q = group(n, leaf);
    lemma_group(n, leaf);
    let t = table_at(mem, root, leaf, q / 512)->0;
    let after = written(mem, t, q % 512, entry);
    assert forall|m: nat, p: int| #[trigger] table_at(after, root, m, p) == table_at(
        mem,
        root,
        m,
        p,
    ) by {
        lemma_cut(mem, root, leaf, q, entry, m, p);
        if under(m, p, leaf, q) {
            lemma_nothing_under(mem, root, leaf, q, m, p);
        }
    }
    assert forall|m: nat, p: int| #[trigger] slot(after, root, m, p) == if m == leaf && p == q {
        Some(entry)
    } else {
        slot(mem, root, m, p)
    } by {
        lemma_cut(mem, root, leaf, q, entry, m, p);
        if under(m, p / 512, leaf, q) {
            lemma_nothing_under(mem, root, leaf, q, m, p / 512);
        }
    }
    lemma_same_tables(mem, after, root);
}

proof fn lemma_same_tables(mem: Tables, after: Tables, root: u64)
    requires
        forall|m: nat, p: int| #[trigger] table_at(after, root, m, p) == table_at(mem, root, m, p),
    ensures
        forall|x: u64|
            #![trigger is_table(after, root, x)]
            #![trigger is_table(mem, root, x)]
            is_table(after, root, x) == is_table(mem, root, x),
{
    assert forall|x: u64|
        #![trigger is_table(after, root, x)]
        #![trigger is_table(mem, root, x)]
        is_table(after, root, x) == is_table(mem, root, x) by {
        if is_table(after, root, x) {
            let (l, p) = choose|l: nat, p: int| #[trigger] table_at(after, root, l, p) == Some(x);
            assert(table_at(mem, root, l, p) == Some(x));
        }
        if is_table(mem, root, x) {
            let (l, p) = choose|l: nat, p: int| #[trigger] table_at(mem, root, l, p) == Some(x);
            assert(table_at(after, root, l, p) == Some(x));
        }
    }
}

/// Clearing the entry of the page itself.
pub proof fn lemma_leaf_removed(mem: Tables, root: u64, n: int, leaf: nat)
    requires
        well_linked(mem, root),
        is_page(n),
        leaf <= 2,
        table_at(mem, root, leaf, group(n, leaf + 1)) is Some,
        slot(mem, root, leaf, group(n, leaf)) matches Some(e) ==> leaf > 0 ==> !links(e),
    ensures
        ({
            let t = table_at(mem, root, leaf, group(n, leaf + 1))->0;
            let after = written(mem, t, group(n, leaf) % 512, 0);
            &&& way_removed(mem, after, root, n, leaf, leaf)
            &&& emptied_below(mem, root, n, leaf, leaf) == Set::<u64>::empty()
        }),
{
    lemma_entry_bits(0, 0);
    lemma_cleared(mem, root, n, leaf, 0);
    assert(emptied_below(mem, root, n, leaf, leaf) =~= Set::<u64>::empty());
}

/// A table is empty after what is below it has been removed exactly where it
/// is one of those that are left empty.
pub proof fn lemma_empty_table(
    mem: Tables,
    after: Tables,
    root: u64,
    n: int,
    leaf: nat,
    level: nat,
)
    requires
        is_page(n),
        leaf <= level < 3,
        way_removed(mem, after, root, n, leaf, level),
        table_at(mem, root, level, group(n, level + 1)) is Some,
        table_at(after, root, level, group(n, level + 1)) == table_at(
            mem,
            root,
            level,
            group(n, level + 1),
        ),
        slot(mem, root, level, group(n, level)) matches Some(e) && present(e),
    ensures
        (forall|i: int|
            0 <= i < 512 ==> !present(
                #[trigger] after[table_at(after, root, level, group(n, level + 1))->0][i],
            )) <==> emptied(mem, root, n, leaf, level),
{
    let p = group(n, level + 1);
    let t = table_at(after, root, level, p)->0;
    lemma_group(n, level);
    lemma_entry_bits(0, 0);
    let g = group(n, level);
    assert forall|i: int| 0 <= i < 512 implies slot(after, root, level, 512 * p + i) == Some(
        #[trigger] after[t][i],
    ) by {
        assert((512 * p + i) / 512 == p && (512 * p + i) % 512 == i);
    }
    if emptied(mem, root, n, leaf, level) {
        assert forall|i: int| 0 <= i < 512 implies !present(#[trigger] after[t][i]) by {
            let q = 512 * p + i;
            assert(slot(after, root, level, q) == Some(after[t][i]));
            if q != g {
                assert(slot(after, root, level, q) == slot(mem, root, level, q));
            }
        }
    }
    if forall|i: int| 0 <= i < 512 ==> !present(#[trigger] after[t][i]) {
        assert(!present(after[t][g % 512]));
        assert(g == 512 * p + g % 512);
        assert(slot(after, root, level, g) == Some(after[t][g % 512]));
        assert forall|q: int|
            #![trigger slot(mem, root, level, q)]
            q / 512 == p && q != g implies !(slot(mem, root, level, q) matches Some(e) && present(
            e,
        )) by {
            assert(q == 512 * p + q % 512);
            assert(!present(after[t][q % 512]));
            assert(slot(after, root, level, q) == Some(after[t][q % 512]));
        }
    }
}

/// What has been removed below `level` with the table there taken out, where it
/// is empty, is what is removed below the next level.
pub proof fn lemma_step_removed(
    mem: Tables,
    between: Tables,
    after: Tables,
    root: u64,
    n: int,
    leaf: nat,
    level: nat,
)
    requires
        is_page(n),
        leaf < level <= 3,
        well_linked(mem, root),
        well_linked(between, root),
        table_at(mem, root, (level - 1) as nat, group(n, level)) is Some,
        table_at(between, root, (level - 1) as nat, group(n, level)) == table_at(
            mem,
            root,
            (level - 1) as nat,
            group(n, level),
        ),
        table_at(between, root, level, group(n, level + 1)) is Some,
        way_removed(mem, between, root, n, leaf, (level - 1) as nat),
        ({
            let below = (level - 1) as nat;
            let t = table_at(between, root, level, group(n, level + 1))->0;
            let child = table_at(between, root, below, group(n, level))->0;
            let empty = forall|i: int| 0 <= i < 512 ==> !present(#[trigger] between[child][i]);
            &&& empty == emptied(mem, root, n, leaf, below)
            &&& after == if empty {
                written(between, t, group(n, level) % 512, 0)
            } else {
                between
            }
        }),
    ensures
        way_removed(mem, after, root, n, leaf, level),
        ({
            let below = (level - 1) as nat;
            let child = table_at(mem, root, below, group(n, level))->0;
            let all = emptied_below(mem, root, n, leaf, level);
            let few = emptied_below(mem, root, n, leaf, below);
            &&& is_table(between, root, child)
            &&& !few.contains(child)
            &&& all == if emptied(mem, root, n, leaf, below) {
                few.insert(child)
            } else {
                few
            }
        }),
{
    let below = (level - 1) as nat;
    let q = group(n, level);
    lemma_group(n, level);
    lemma_group(n, below);
    lemma_entry_bits(0, 0);
    let t = table_at(between, root, level, q / 512)->0;
    let child = table_at(between, root, below, q)->0;
    let all = emptied_below(mem, root, n, leaf, level);
    let few = emptied_below(mem, root, n, leaf, below);
    let gone = emptied(mem, root, n, leaf, below);
    assert(table_at(mem, root, below, group(n, below + 1)) == Some(child));
    assert(is_table(between, root, child));
    assert(all =~= if gone {
        few.insert(child)
    } else {
        few
    }) by {
        assert forall|x: u64| all.contains(x) <==> few.contains(x) || (gone && x == child) by {
            if all.contains(x) {
                let l = choose|l: nat|
                    l < level && #[trigger] emptied(mem, root, n, leaf, l) && table_at(
                        mem,
                        root,
                        l,
                        group(n, l + 1),
                    ) == Some(x);
                if l < below {
                    assert(few.contains(x));
                }
            }
            if few.contains(x) {
                let l = choose|l: nat|
                    l < below && #[trigger] emptied(mem, root, n, leaf, l) && table_at(
                        mem,
                        root,
                        l,
                        group(n, l + 1),
                    ) == Some(x);
                assert(l < level);
            }
            if gone && x == child {
                assert(emptied(mem, root, n, leaf, below) && below < level);
            }
        }
    }
    if gone {
        lemma_taken_out(between, root, level, q);
        assert forall|l: nat|
            leaf <= l < level && (#[trigger] table_at(
                after,
                root,
                l,
                group(n, l + 1),
            )) is Some implies holds_entry(after, root, l, group(n, l + 1)) by {
            assert(under(l, group(n, l + 1), level, q)) by {
                reveal_with_fuel(under, 4);
                lemma_group(n, 0);
                lemma_group(n, 1);
                lemma_group(n, 2);
                lemma_group(n, 3);
            }
            lemma_cut(between, root, level, q, 0, l, group(n, l + 1));
        }
        assert forall|m: nat, s: int| m > level || (m == level && s != q) implies #[trigger] slot(
            after,
            root,
            m,
            s,
        ) == slot(mem, root, m, s) by {
            lemma_cut(between, root, level, q, 0, m, s);
            assert(slot(between, root, m, s) == slot(mem, root, m, s));
        }
        lemma_cut(between, root, level, q, 0, level, q);
    } else {
        let i = choose|i: int| 0 <= i < 512 && present(#[trigger] between[child][i]);
        assert((512 * q + i) / 512 == q && (512 * q + i) % 512 == i);
        assert(slot(between, root, below, 512 * q + i) == Some(between[child][i]));
        assert(holds_entry(between, root, below, q));
        assert forall|m: nat, s: int| m > level || (m == level && s != q) implies #[trigger] slot(
            after,
            root,
            m,
            s,
        ) == slot(mem, root, m, s) by {
            assert(slot(between, root, m, s) == slot(mem, root, m, s));
        }
        assert(slot(between, root, level, q) == slot(mem, root, level, q));
    }
}

/// Taking an empty table out takes that table out and no other.
proof fn lemma_taken_out(mem: Tables, root: u64, level: nat, q: int)
    requires
        well_linked(mem, root),
        0 < level <= 3,
        table_at(mem, root, level, q / 512) is Some,
        table_at(mem, root, (level - 1) as nat, q) is Some,
        forall|i: int|
            0 <= i < 512 ==> !present(
                #[trigger] mem[table_at(mem, root, (level - 1) as nat, q)->0][i],
            ),
    ensures
        ({
            let t = table_at(mem, root, level, q / 512)->0;
            let child = table_at(mem, root, (level - 1) as nat, q)->0;
            let after = written(mem, t, q % 512, 0);
            forall|x: u64|
                #![trigger is_table(after, root, x)]
                #![trigger is_table(mem, root, x)]
                is_table(after, root, x) <==> is_table(mem, root, x) && x != child
        }),
{
    let t = table_at(mem, root, level, q / 512)->0;
    let below = (level - 1) as nat;
    let child = table_at(mem, root, below, q)->0;
    let after = written(mem, t, q % 512, 0);
    lemma_entry_bits(0, 0);
    assert forall|s: int|
        #![trigger slot(mem, root, below, s)]
        s / 512 == q implies (slot(mem, root, below, s) matches Some(e) ==> !present(e)) by {
        assert(slot(mem, root, below, s) == Some(mem[child][s % 512]));
    }
    assert forall|x: u64|
        #![trigger is_table(after, root, x)]
        #![trigger is_table(mem, root, x)]
        is_table(after, root, x) <==> is_table(mem, root, x) && x != child by {
        if is_table(after, root, x) {
            let (l, p) = choose|l: nat, p: int| #[trigger] table_at(after, root, l, p) == Some(x);
            lemma_cut(mem, root, level, q, 0, l, p);
            assert(table_at(mem, root, l, p) == Some(x));
            if x == child {
                assert(l == below && p == q);
            }
        }
        if is_table(mem, root, x) && x != child {
            let (l, p) = choose|l: nat, p: int| #[trigger] table_at(mem, root, l, p) == Some(x);
            lemma_cut(mem, root, level, q, 0, l, p);
            if under(l, p, level, q) {
                if l + 1 < level {
                    lemma_nothing_under_empty(mem, root, level, q, l, p);
                }
            }
            assert(table_at(after, root, l, p) == Some(x));
        }
    }
}

/// The tables after the way to the entry of page `n` at `leaf` has been added:
/// what there was is kept, and a table that was missing holds nothing but what
/// is on the way.
pub open spec fn way_added(mem: Tables, after: Tables, root: u64, n: int, leaf: nat) -> bool {
    &&& forall|l: nat, p: int|
        l >= 3 || l < leaf || p != group(n, l + 1) || table_at(mem, root, l, p) is Some
            ==> #[trigger] table_at(after, root, l, p) == table_at(mem, root, l, p)
    &&& forall|l: nat, q: int|
        slot(mem, root, l, q) is Some && (q != group(n, l) || present(slot(mem, root, l, q)->0))
            ==> #[trigger] slot(after, root, l, q) == slot(mem, root, l, q)
    &&& forall|l: nat|
        leaf <= l < 3 && table_at(mem, root, l, group(n, l + 1)) is None ==> (#[trigger] table_at(
            after,
            root,
            l,
            group(n, l + 1),
        )) is Some && others_absent(after, root, n, l)
}

/// The tables that were added on the way to the entry of page `n` at `leaf`.
pub open spec fn added(mem: Tables, after: Tables, root: u64, n: int, leaf: nat) -> Set<u64> {
    Set::new(
        |t: u64|
            exists|l: nat|
                leaf <= l < 3 && table_at(mem, root, l, group(n, l + 1)) is None
                    && #[trigger] table_at(after, root, l, group(n, l + 1)) == Some(t),
    )
}

/// A table that has been there all along is not added.
pub proof fn lemma_way_there(mem: Tables, root: u64, n: int, level: nat)
    requires
        is_page(n),
        0 < level <= 3,
        table_at(mem, root, (level - 1) as nat, group(n, level)) is Some,
    ensures
        way_added(mem, mem, root, n, (level - 1) as nat),
        added(mem, mem, root, n, (level - 1) as nat) == Set::<u64>::empty(),
        added(mem, mem, root, n, level) == Set::<u64>::empty(),
{
    let below = (level - 1) as nat;
    assert(added(mem, mem, root, n, below) =~= Set::<u64>::empty());
    assert(added(mem, mem, root, n, level) =~= Set::<u64>::empty());
    assert forall|l: nat|
        below <= l < 3 && table_at(mem, root, l, group(n, l + 1)) is None implies (
    #[trigger] table_at(mem, root, l, group(n, l + 1))) is Some && others_absent(
        mem,
        root,
        n,
        l,
    ) by {
        lemma_way_above(mem, root, n, below, l);
    }
}

/// Above a table on the way there are the other tables on it.
proof fn lemma_way_above(mem: Tables, root: u64, n: int, level: nat, l: nat)
    requires
        is_page(n),
        level <= l <= 3,
        table_at(mem, root, level, group(n, level + 1)) is Some,
    ensures
        table_at(mem, root, l, group(n, l + 1)) is Some,
    decreases l - level,
{
    if level < l {
        lemma_group(n, level + 1);
        assert(slot(mem, root, level + 1, group(n, level + 1)) is Some);
        assert(table_at(mem, root, level + 1, group(n, level + 1) / 512) is Some);
        lemma_way_above(mem, root, n, level + 1, l);
    }
}

/// Hanging in a table that was missing adds one step of the way.
pub proof fn lemma_step_added(
    mem: Tables,
    before: Tables,
    root: u64,
    n: int,
    level: nat,
    entry: u64,
)
    requires
        is_page(n),
        0 < level <= 3,
        well_linked(before, root),
        way_added(mem, before, root, n, level),
        table_at(before, root, level, group(n, level + 1)) is Some,
        slot(before, root, level, group(n, level)) matches Some(e) && !present(e),
        links(entry),
        !is_table(before, root, frame(entry)),
        before.contains_key(frame(entry)),
    ensures
        ({
            let t = table_at(before, root, level, group(n, level + 1))->0;
            let zeroed = before.insert(frame(entry), Seq::new(512, |i: int| 0u64));
            let after = written(zeroed, t, group(n, level) % 512, entry);
            &&& way_added(mem, after, root, n, (level - 1) as nat)
            &&& added(mem, after, root, n, (level - 1) as nat) == added(
                mem,
                before,
                root,
                n,
                level,
            ).insert(frame(entry))
        }),
{
    let f = frame(entry);
    let q = group(n, level);
    let below = (level - 1) as nat;
    lemma_group(n, level);
    lemma_group(n, below);
    lemma_entry_bits(0, 0);
    let t = table_at(before, root, level, q / 512)->0;
    let zeros = Seq::new(512, |i: int| 0u64);
    let zeroed = before.insert(f, zeros);
    let after = written(zeroed, t, q % 512, entry);
    lemma_outside_all(before, root, f, zeros);
    assert(!is_table(zeroed, root, f)) by {
        if is_table(zeroed, root, f) {
            let (l, p) = choose|l: nat, p: int| #[trigger] table_at(zeroed, root, l, p) == Some(f);
            assert(table_at(before, root, l, p) == Some(f));
        }
    }
    assert(table_at(zeroed, root, level, q / 512) == Some(t));
    assert(slot(zeroed, root, level, q) == slot(before, root, level, q));
    assert forall|m: nat, p: int| #[trigger] table_at(after, root, m, p) == if m + 1 == level && p
        == q {
        Some(f)
    } else {
        table_at(before, root, m, p)
    } by {
        lemma_link(zeroed, root, level, q, entry, m, p);
        assert(table_at(zeroed, root, m, p) == table_at(before, root, m, p));
    }
    assert forall|m: nat, p: int| #[trigger] slot(after, root, m, p) == if m == level && p == q {
        Some(entry)
    } else if m + 1 == level && p / 512 == q {
        Some(0u64)
    } else {
        slot(before, root, m, p)
    } by {
        lemma_link(zeroed, root, level, q, entry, m, p);
        assert(slot(zeroed, root, m, p) == slot(before, root, m, p));
    }
    assert(table_at(mem, root, below, q) is None) by {
        if table_at(mem, root, below, q) is Some {
            assert(slot(mem, root, level, q) is Some && links(slot(mem, root, level, q)->0));
            assert(slot(before, root, level, q) == slot(mem, root, level, q));
        }
    }
    assert forall|l: nat, p: int|
        l >= 3 || l < below || p != group(n, l + 1) || table_at(
            mem,
            root,
            l,
            p,
        ) is Some implies #[trigger] table_at(after, root, l, p) == table_at(mem, root, l, p) by {
        assert(table_at(before, root, l, p) == table_at(mem, root, l, p));
    }
    assert forall|l: nat, s: int|
        slot(mem, root, l, s) is Some && (s != group(n, l) || present(
            slot(mem, root, l, s)->0,
        )) implies #[trigger] slot(after, root, l, s) == slot(mem, root, l, s) by {
        assert(slot(before, root, l, s) == slot(mem, root, l, s));
        if l + 1 == level && s / 512 == q {
            assert(table_at(mem, root, l, s / 512) is None);
        }
    }
    assert forall|l: nat|
        below <= l < 3 && table_at(mem, root, l, group(n, l + 1)) is None implies (
    #[trigger] table_at(after, root, l, group(n, l + 1))) is Some && others_absent(
        after,
        root,
        n,
        l,
    ) by {
        if l >= level {
            assert(table_at(before, root, l, group(n, l + 1)) is Some);
            assert(others_absent(before, root, n, l));
            assert forall|s: int|
                #![trigger slot(after, root, l, s)]
                s / 512 == group(n, l + 1) && s != group(n, l) implies !(slot(
                after,
                root,
                l,
                s,
            ) matches Some(e) && present(e)) by {
                assert(slot(after, root, l, s) == slot(before, root, l, s));
            }
        }
    }
    let all = added(mem, after, root, n, below);
    let few = added(mem, before, root, n, level);
    assert(all =~= few.insert(f)) by {
        assert forall|x: u64| all.contains(x) <==> few.contains(x) || x == f by {
            if all.contains(x) {
                let l = choose|l: nat|
                    below <= l < 3 && table_at(mem, root, l, group(n, l + 1)) is None
                        && #[trigger] table_at(after, root, l, group(n, l + 1)) == Some(x);
                if l >= level {
                    assert(table_at(before, root, l, group(n, l + 1)) == Some(x));
                }
            }
            if few.contains(x) {
                let l = choose|l: nat|
                    level <= l < 3 && table_at(mem, root, l, group(n, l + 1)) is None
                        && #[trigger] table_at(before, root, l, group(n, l + 1)) == Some(x);
                assert(table_at(after, root, l, group(n, l + 1)) == Some(x));
            }
            if x == f {
                assert(table_at(after, root, below, group(n, below + 1)) == Some(f));
            }
        }
    }
}

/// Writing the entry of the page itself adds no table.
pub proof fn lemma_leaf_added(
    mem: Tables,
    before: Tables,
    root: u64,
    n: int,
    leaf: nat,
    entry: u64,
)
    requires
        is_page(n),
        leaf <= 2,
        well_linked(before, root),
        way_added(mem, before, root, n, leaf),
        table_at(before, root, leaf, group(n, leaf + 1)) is Some,
        slot(before, root, leaf, group(n, leaf)) matches Some(e) && !present(e),
        leaf > 0 ==> !links(entry),
    ensures
        ({
            let t = table_at(before, root, leaf, group(n, leaf + 1))->0;
            let after = written(before, t, group(n, leaf) % 512, entry);
            &&& way_added(mem, after, root, n, leaf)
            &&& added(mem, after, root, n, leaf) == added(mem, before, root, n, leaf)
            &&& slot(after, root, leaf, group(n, leaf)) == Some(entry)
        }),
{
    lemma_cleared(before, root, n, leaf, entry);
    let t = table_at(before, root, leaf, group(n, leaf + 1))->0;
    let after = written(before, t, group(n, leaf) % 512, entry);
    assert forall|l: nat, p: int|
        l >= 3 || l < leaf || p != group(n, l + 1) || table_at(
            mem,
            root,
            l,
            p,
        ) is Some implies #[trigger] table_at(after, root, l, p) == table_at(mem, root, l, p) by {
        assert(table_at(before, root, l, p) == table_at(mem, root, l, p));
    }
    assert forall|l: nat, s: int|
        slot(mem, root, l, s) is Some && (s != group(n, l) || present(
            slot(mem, root, l, s)->0,
        )) implies #[trigger] slot(after, root, l, s) == slot(mem, root, l, s) by {
        assert(slot(before, root, l, s) == slot(mem, root, l, s));
    }
    assert forall|l: nat|
        leaf <= l < 3 && table_at(mem, root, l, group(n, l + 1)) is None implies (
    #[trigger] table_at(after, root, l, group(n, l + 1))) is Some && others_absent(
        after,
        root,
        n,
        l,
    ) by {
        assert(table_at(before, root, l, group(n, l + 1)) is Some);
        assert(others_absent(before, root, n, l));
        assert forall|s: int|
            #![trigger slot(after, root, l, s)]
            s / 512 == group(n, l + 1) && s != group(n, l) implies !(slot(
            after,
            root,
            l,
            s,
        ) matches Some(e) && present(e)) by {
            assert(slot(after, root, l, s) == slot(before, root, l, s));
        }
    }
    assert(added(mem, after, root, n, leaf) =~= added(mem, before, root, n, leaf)) by {
        assert forall|x: u64| added(mem, after, root, n, leaf).contains(x) <==> added(
            mem,
            before,
            root,
            n,
            leaf,
        ).contains(x) by {
            if added(mem, before, root, n, leaf).contains(x) {
                let l = choose|l: nat|
                    leaf <= l < 3 && table_at(mem, root, l, group(n, l + 1)) is None
                        && #[trigger] table_at(before, root, l, group(n, l + 1)) == Some(x);
                assert(table_at(after, root, l, group(n, l + 1)) == Some(x));
            }
        }
    }
}

/// Unmapping a page that has just been mapped takes out the tables that the
/// mapping added, and no other, where no table on the way was empty before.
pub proof fn law_unmapping_takes_out_what_mapping_added(
    mem: Tables,
    after: Tables,
    root: u64,
    n: int,
    leaf: nat,
)
    requires
        is_page(n),
        leaf <= 2,
        way_in_use(mem, root, n, leaf, 3),
        !blocked(mem, root, n, leaf),
        slot(mem, root, leaf, group(n, leaf)) matches Some(e) ==> !present(e),
        way_added(mem, after, root, n, leaf),
        slot(after, root, leaf, group(n, leaf)) matches Some(e) && present(e) && huge(e) == (leaf
            > 0),
    ensures
        emptied_below(after, root, n, leaf, 3) == added(mem, after, root, n, leaf),
        unmap_outcome(after, root, n, 3, leaf) is Ok,
{
    let gone = emptied_below(after, root, n, leaf, 3);
    let new = added(mem, after, root, n, leaf);
    assert(gone =~= new) by {
        assert forall|x: u64| gone.contains(x) <==> new.contains(x) by {
            if gone.contains(x) {
                let l = choose|l: nat|
                    l < 3 && #[trigger] emptied(after, root, n, leaf, l) && table_at(
                        after,
                        root,
                        l,
                        group(n, l + 1),
                    ) == Some(x);
                lemma_emptied_is_added(mem, after, root, n, leaf, l);
            }
            if new.contains(x) {
                let l = choose|l: nat|
                    leaf <= l < 3 && table_at(mem, root, l, group(n, l + 1)) is None
                        && #[trigger] table_at(after, root, l, group(n, l + 1)) == Some(x);
                lemma_emptied_is_added(mem, after, root, n, leaf, l);
            }
        }
    }
    lemma_found(mem, after, root, n, leaf, 3);
}

proof fn lemma_emptied_is_added(
    mem: Tables,
    after: Tables,
    root: u64,
    n: int,
    leaf: nat,
    level: nat,
)
    requires
        is_page(n),
        leaf <= level < 3,
        way_in_use(mem, root, n, leaf, 3),
        !blocked(mem, root, n, leaf),
        slot(mem, root, leaf, group(n, leaf)) matches Some(e) ==> !present(e),
        way_added(mem, after, root, n, leaf),
    ensures
        emptied(after, root, n, leaf, level) <==> table_at(
            mem,
            root,
            level,
            group(n, level + 1),
        ) is None,
    decreases level,
{
    let p = group(n, level + 1);
    lemma_group(n, level);
    if level > leaf {
        lemma_emptied_is_added(mem, after, root, n, leaf, (level - 1) as nat);
    }
    match table_at(mem, root, level, p) {
        None => {
            assert(table_at(after, root, level, p) is Some);
            if level > leaf {
                assert(slot(mem, root, level, group(n, level)) is None);
                assert(table_at(mem, root, (level - 1) as nat, group(n, level)) is None);
            }
        },
        Some(_) => {
            assert(holds_entry(mem, root, level, p));
            let q = choose|q: int|
                q / 512 == p && (#[trigger] slot(mem, root, level, q)) is Some && present(
                    slot(mem, root, level, q)->0,
                );
            assert(slot(after, root, level, q) == slot(mem, root, level, q));
            if q == group(n, level) {
                assert(level > leaf);
                assert(links(slot(mem, root, level, q)->0));
                assert(table_at(mem, root, (level - 1) as nat, q) is Some);
            }
        },
    }
}

proof fn lemma_found(mem: Tables, after: Tables, root: u64, n: int, leaf: nat, level: nat)
    requires
        is_page(n),
        leaf <= level <= 3,
        leaf <= 2,
        !blocked(mem, root, n, leaf),
        way_added(mem, after, root, n, leaf),
        slot(after, root, leaf, group(n, leaf)) matches Some(e) && present(e),
    ensures
        search(after, root, n, level, leaf) == Ok::<u64, PagerError>(
            slot(after, root, leaf, group(n, leaf))->0,
        ),
    decreases level,
{
    if level > leaf {
        let below = (level - 1) as nat;
        let q = group(n, level);
        lemma_group(n, level);
        lemma_group(n, below);
        lemma_found(mem, after, root, n, leaf, below);
        lemma_way_above(after, root, n, leaf, below);
        assert(table_at(after, root, below, q) is Some);
    }
}

/// The tables below `top` that were added on the way to page `n`.
spec fn added_under(
    mem: Tables,
    after: Tables,
    root: u64,
    n: int,
    leaf: nat,
    top: nat,
) -> Set<u64> {
    Set::new(
        |t: u64|
            exists|l: nat|
                leaf <= l < top && table_at(mem, root, l, group(n, l + 1)) is None
                    && #[trigger] table_at(after, root, l, group(n, l + 1)) == Some(t),
    )
}

proof fn lemma_as_many_as_missing(
    mem: Tables,
    after: Tables,
    root: u64,
    n: int,
    leaf: nat,
    top: nat,
)
    requires
        is_page(n),
        leaf <= top <= 3,
        well_linked(after, root),
        !blocked(mem, root, n, leaf),
        way_added(mem, after, root, n, leaf),
    ensures
        added_under(mem, after, root, n, leaf, top).finite(),
        added_under(mem, after, root, n, leaf, top).len() == missing(mem, root, n, top, leaf),
    decreases top,
{
    let all = added_under(mem, after, root, n, leaf, top);
    if top <= leaf {
        assert(all =~= Set::<u64>::empty());
    } else {
        let below = (top - 1) as nat;
        let p = group(n, top);
        lemma_as_many_as_missing(mem, after, root, n, leaf, below);
        let rest = added_under(mem, after, root, n, leaf, below);
        match table_at(mem, root, below, p) {
            None => {
                let t = table_at(after, root, below, p)->0;
                assert(table_at(after, root, below, p) == Some(t));
                assert(!rest.contains(t)) by {
                    if rest.contains(t) {
                        let l = choose|l: nat|
                            leaf <= l < below && table_at(mem, root, l, group(n, l + 1)) is None
                                && #[trigger] table_at(after, root, l, group(n, l + 1)) == Some(t);
                        assert(l == below);
                    }
                }
                assert(all =~= rest.insert(t)) by {
                    assert forall|x: u64| all.contains(x) <==> rest.insert(t).contains(x) by {
                        if all.contains(x) {
                            let l = choose|l: nat|
                                leaf <= l < top && table_at(mem, root, l, group(n, l + 1)) is None
                                    && #[trigger] table_at(after, root, l, group(n, l + 1)) == Some(
                                    x,
                                );
                            if l != below {
                                assert(rest.contains(x));
                            }
                        }
                        if rest.contains(x) {
                            let l = choose|l: nat|
                                leaf <= l < below && table_at(mem, root, l, group(n, l + 1)) is None
                                    && #[trigger] table_at(after, root, l, group(n, l + 1)) == Some(
                                    x,
                                );
                            assert(all.contains(x));
                        }
                    }
                }
            },
            Some(_) => {
                assert(all =~= rest) by {
                    assert forall|x: u64| all.contains(x) <==> rest.contains(x) by {
                        if all.contains(x) {
                            let l = choose|l: nat|
                                leaf <= l < top && table_at(mem, root, l, group(n, l + 1)) is None
                                    && #[trigger] table_at(after, root, l, group(n, l + 1)) == Some(
                                    x,
                                );
                            assert(l != below);
                        }
                    }
                }
            },
        }
    }
}

/// Mapping a page of any size and unmapping it again leaves the allocator the
/// frames that it had, as far as no table on the way was empty before: each
/// table that was added has been given back, once. Unmapping the page a second
/// time finds nothing, and none of its addresses is mapped.
pub proof fn law_mapped_then_unmapped<A: FrameAllocator>(
    mem: Tables,
    mapped: Tables,
    after: Tables,
    root: u64,
    n: int,
    leaf: nat,
    first: A,
    second: A,
    third: A,
)
    requires
        is_page(n),
        leaf <= 2,
        way_in_use(mem, root, n, leaf, 3),
        well_linked(mapped, root),
        !blocked(mem, root, n, leaf),
        slot(mem, root, leaf, group(n, leaf)) matches Some(e) ==> !present(e),
        way_added(mem, mapped, root, n, leaf),
        slot(mapped, root, leaf, group(n, leaf)) matches Some(e) && present(e) && huge(e) == (leaf
            > 0),
        added(mem, mapped, root, n, leaf).subset_of(first.available()),
        second.available() == first.available().difference(added(mem, mapped, root, n, leaf)),
        second.capacity() + missing(mem, root, n, 3, leaf) == first.capacity(),
        entry_cleared(after, root, n, 3, leaf),
        given_back(second, third, emptied_below(mapped, root, n, leaf, 3)),
    ensures
        unmap_outcome(mapped, root, n, 3, leaf) is Ok,
        third.available() == first.available(),
        third.capacity() == first.capacity(),
        unmap_outcome(after, root, n, 3, leaf) == Err::<(), PagerError>(PagerError::NotMapped),
        forall|i: int|
            is_page(i) && group(i, leaf) == group(n, leaf) ==> (#[trigger] mapping(
                after,
                root,
                i,
            )) is None,
{
    law_unmapping_takes_out_what_mapping_added(mem, mapped, root, n, leaf);
    lemma_as_many_as_missing(mem, mapped, root, n, leaf, 3);
    assert(added_under(mem, mapped, root, n, leaf, 3) =~= added(mem, mapped, root, n, leaf));
    assert(third.available() =~= first.available());
    assert forall|i: int|
        is_page(i) && group(i, leaf) == group(n, leaf) implies (#[trigger] mapping(
        after,
        root,
        i,
    )) is None by {
        lemma_nothing_mapped(after, root, n, i, leaf);
    }
}

} // verus!
