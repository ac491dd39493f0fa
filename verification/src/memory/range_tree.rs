//! A map from disjoint half-open address ranges to values, kept as a
//! left-leaning red-black tree.
//!
//! The tree's meaning is the sequence of its ranges from left to right
//! (`spans`). Rotations and colour flips leave that sequence alone, so the
//! ordering argument and the balancing argument are kept apart: `spans` says
//! what is stored, `sound` says that the tree is balanced.

use vstd::prelude::*;

verus! {

pub type Link<T> = Option<Box<Node<T>>>;

#[derive(Clone, Copy, Debug, PartialEq, Eq, Structural)]
pub enum Color {
    Red,
    Black,
}

#[derive(Debug)]
pub struct Node<T> {
    start: u64,
    end: u64,
    value: T,
    color: Color,
    left: Link<T>,
    right: Link<T>,
}

/// One stored range together with its value.
pub struct Span<T> {
    pub start: u64,
    pub end: u64,
    pub value: T,
}

impl<T> Node<T> {
    pub closed spec fn span(self) -> Span<T> {
        Span { start: self.start, end: self.end, value: self.value }
    }

    fn new(start: u64, end: u64, value: T) -> (node: Box<Self>)
        ensures
            node.span() == (Span { start, end, value }),
            node.color == Color::Red,
            node.left is None,
            node.right is None,
    {
        Box::new(Self { start, end, value, color: Color::Red, left: None, right: None })
    }
}

/// The ranges of a subtree, from left to right.
spec fn spans<T>(link: Link<T>) -> Seq<Span<T>>
    decreases link,
{
    match link {
        None => Seq::empty(),
        Some(node) => spans(node.left) + seq![node.span()] + spans(node.right),
    }
}

/// Every range is non-empty and ends before the next one starts.
pub open spec fn ordered<T>(s: Seq<Span<T>>) -> bool {
    &&& forall|i: int| 0 <= i < s.len() ==> (#[trigger] s[i]).start < s[i].end
    &&& forall|i: int, j: int|
        #![trigger s[i], s[j]]
        0 <= i < j < s.len() ==> s[i].end <= s[j].start
}

/// A missing child counts as black.
spec fn red<T>(link: Link<T>) -> bool {
    link is Some && link->0.color == Color::Red
}

/// The number of black nodes on the leftmost path, counting the missing leaf.
spec fn height<T>(link: Link<T>) -> int
    decreases link,
{
    match link {
        None => 1,
        Some(node) => height(node.left) + if node.color == Color::Black { 1int } else { 0int },
    }
}

proof fn lemma_height_positive<T>(link: Link<T>)
    ensures
        height(link) >= 1,
    decreases link,
{
    if let Some(node) = link {
        lemma_height_positive(node.left);
    }
}

/// Both subtrees are balanced and equally high, and no right child is red.
spec fn leaning<T>(link: Link<T>) -> bool
    decreases link, 0nat,
{
    match link {
        None => true,
        Some(node) => {
            &&& sound(node.left)
            &&& sound(node.right)
            &&& height(node.left) == height(node.right)
            &&& !red(node.right)
        },
    }
}

/// A left-leaning red-black tree: balanced, and no red node has a red child.
spec fn sound<T>(link: Link<T>) -> bool
    decreases link, 1nat,
{
    leaning(link) && (red(link) ==> !red(link->0.left))
}

fn is_red<T>(node: &Link<T>) -> (r: bool)
    ensures
        r == red(*node),
{
    match node {
        Some(node) => node.color == Color::Red,
        None => false,
    }
}

fn rotate_left<T>(h: Box<Node<T>>) -> (x: Box<Node<T>>)
    requires
        h.right is Some,
    ensures
        spans(Some(x)) == spans(Some(h)),
        x.color == h.color,
        x.right == h.right->0.right,
        x.left is Some,
        x.left->0.color == Color::Red,
        x.left->0.left == h.left,
        x.left->0.right == h.right->0.left,
        x.left->0.span() == h.span(),
{
    let mut h = h;
    let mut x = h.right.take().unwrap();
    h.right = x.left.take();
    x.color = h.color;
    h.color = Color::Red;
    x.left = Some(h);
    proof {
        reveal_with_fuel(spans, 3);
    }
    x
}

fn rotate_right<T>(h: Box<Node<T>>) -> (x: Box<Node<T>>)
    requires
        h.left is Some,
    ensures
        spans(Some(x)) == spans(Some(h)),
        x.color == h.color,
        x.left == h.left->0.left,
        x.right is Some,
        x.right->0.color == Color::Red,
        x.right->0.left == h.left->0.right,
        x.right->0.right == h.right,
        x.right->0.span() == h.span(),
{
    let mut h = h;
    let mut x = h.left.take().unwrap();
    h.left = x.right.take();
    x.color = h.color;
    h.color = Color::Red;
    x.right = Some(h);
    proof {
        reveal_with_fuel(spans, 3);
    }
    x
}

spec fn flipped(color: Color) -> Color {
    match color {
        Color::Red => Color::Black,
        Color::Black => Color::Red,
    }
}

/// `link` with its root recoloured.
spec fn painted<T>(link: Link<T>, color: Color) -> Link<T> {
    match link {
        None => None,
        Some(node) => Some(Box::new(Node { color, ..*node })),
    }
}

spec fn repainted<T>(link: Link<T>) -> Link<T> {
    match link {
        None => None,
        Some(node) => painted(link, flipped(node.color)),
    }
}

fn opposite(color: Color) -> (c: Color)
    ensures
        c == flipped(color),
{
    match color {
        Color::Red => Color::Black,
        Color::Black => Color::Red,
    }
}

/// Flips the colour of `h` and of both its children.
fn flip_colors<T>(h: &mut Box<Node<T>>)
    ensures
        **final(h) == (Node {
            color: flipped(old(h).color),
            left: repainted(old(h).left),
            right: repainted(old(h).right),
            ..**old(h)
        }),
        spans(Some(*final(h))) == spans(Some(*old(h))),
{
    h.color = opposite(h.color);
    if let Some(left) = h.left.as_mut() {
        left.color = opposite(left.color);
    }
    if let Some(right) = h.right.as_mut() {
        right.color = opposite(right.color);
    }
    proof {
        reveal_with_fuel(spans, 3);
    }
}

/// Restores the left lean of a node whose children have just changed. The left
/// child may be a red node with a red left child, the right child may be red.
fn fix_up<T>(h: Box<Node<T>>) -> (r: Box<Node<T>>)
    requires
        leaning(h.left),
        sound(h.right),
        height(h.left) == height(h.right),
        h.color == Color::Red ==> sound(h.left) && !(red(h.left) && red(h.right)),
        !sound(h.left) ==> !red(h.right),
    ensures
        spans(Some(r)) == spans(Some(h)),
        height(Some(r)) == height(Some(h)),
        leaning(Some(r)),
        h.color == Color::Black || !(red(h.left) || red(h.right)) ==> sound(Some(r)),
        r.color == Color::Red <==> h.color == Color::Red || (red(h.left) && red(h.right)) || !sound(
            h.left,
        ),
{
    let mut h = h;
    proof {
        reveal_with_fuel(sound, 4);
        reveal_with_fuel(leaning, 4);
        reveal_with_fuel(height, 4);
    }
    if is_red(&h.right) && !is_red(&h.left) {
        h = rotate_left(h);
    }
    if is_red(&h.left) && is_red(&h.left.as_ref().unwrap().left) {
        h = rotate_right(h);
    }
    if is_red(&h.left) && is_red(&h.right) {
        flip_colors(&mut h);
    }
    h
}

/// Makes the left child, or its left child, red on the way down to it.
fn move_red_left<T>(h: Box<Node<T>>) -> (r: Box<Node<T>>)
    requires
        sound(Some(h)),
        h.color == Color::Red,
        h.left is Some,
        !red(h.left),
        !red(h.left->0.left),
    ensures
        spans(Some(r)) == spans(Some(h)),
        height(Some(r)) == height(Some(h)),
        sound(r.left),
        sound(r.right),
        height(r.left) == height(r.right),
        r.left is Some,
        red(r.left) || red(r.left->0.left),
        red(r.left) == red(r.right),
        red(r.left) <==> r.color == Color::Black,
        spans(r.left).len() >= spans(h.left).len(),
{
    let mut h = h;
    proof {
        lemma_height_positive(h.left->0.left);
        reveal_with_fuel(spans, 4);
        reveal_with_fuel(sound, 5);
        reveal_with_fuel(leaning, 5);
        reveal_with_fuel(height, 5);
    }
    flip_colors(&mut h);
    let right_left_red = match &h.right {
        Some(right) => is_red(&right.left),
        None => false,
    };
    if right_left_red {
        let right = h.right.take().unwrap();
        h.right = Some(rotate_right(right));
        h = rotate_left(h);
        flip_colors(&mut h);
    }
    h
}

/// Makes the right child, or one of its children, red on the way down to it.
fn move_red_right<T>(h: Box<Node<T>>) -> (r: Box<Node<T>>)
    requires
        sound(Some(h)),
        h.color == Color::Red,
        h.right is Some,
        !red(h.right),
        !red(h.right->0.left),
    ensures
        spans(Some(r)) == spans(Some(h)),
        height(Some(r)) == height(Some(h)),
        sound(r.left),
        r.right is Some,
        height(r.left) == height(r.right),
        red(r.left) == red(r.right),
        red(r.left) <==> r.color == Color::Black,
        red(r.right) ==> sound(r.right) && r.span() == h.span() && spans(r.left) == spans(h.left),
        !red(r.right) ==> bent(*r.right->0) && r.right->0.span() == h.span() && spans(r.left).len()
            + 1 + spans(r.right->0.left).len() == spans(h.left).len(),
{
    let mut h = h;
    proof {
        lemma_height_positive(h.right->0.left);
        reveal_with_fuel(spans, 4);
        reveal_with_fuel(sound, 5);
        reveal_with_fuel(leaning, 5);
        reveal_with_fuel(height, 5);
    }
    flip_colors(&mut h);
    let left_left_red = match &h.left {
        Some(left) => is_red(&left.left),
        None => false,
    };
    if left_left_red {
        h = rotate_right(h);
        flip_colors(&mut h);
    }
    h
}

/// A black node whose only red child is the right one.
spec fn bent<T>(h: Node<T>) -> bool {
    &&& h.color == Color::Black
    &&& sound(h.left)
    &&& sound(h.right)
    &&& height(h.left) == height(h.right)
    &&& !red(h.left)
    &&& red(h.right)
}

/// Inserting at `k` keeps the ranges in order.
spec fn fits_at<T>(s: Seq<Span<T>>, k: int, start: u64, end: u64) -> bool {
    &&& 0 <= k <= s.len()
    &&& forall|i: int| 0 <= i < k ==> (#[trigger] s[i]).end <= start
    &&& forall|i: int| k <= i < s.len() ==> end <= (#[trigger] s[i]).start
}

/// `[start, end)` meets none of the ranges.
pub open spec fn vacant<T>(s: Seq<Span<T>>, start: u64, end: u64) -> bool {
    forall|i: int| 0 <= i < s.len() ==> (#[trigger] s[i]).end <= start || end <= s[i].start
}

/// `after` is `before` with `new` put where it belongs.
spec fn inserted<T>(before: Seq<Span<T>>, after: Seq<Span<T>>, new: Span<T>) -> bool {
    exists|k: int|
        fits_at(before, k, new.start, new.end) && after == #[trigger] before.insert(k, new)
}

proof fn lemma_parts<T>(left: Seq<Span<T>>, mid: Span<T>, right: Seq<Span<T>>, start: u64, end: u64)
    requires
        ordered(left + seq![mid] + right),
    ensures
        ordered(left),
        ordered(right),
        mid.start < mid.end,
        forall|i: int| 0 <= i < left.len() ==> (#[trigger] left[i]).end <= mid.start,
        forall|i: int| 0 <= i < right.len() ==> mid.end <= (#[trigger] right[i]).start,
        vacant(left + seq![mid] + right, start, end) ==> vacant(left, start, end) && vacant(
            right,
            start,
            end,
        ) && (mid.end <= start || end <= mid.start),
{
    let s = left + seq![mid] + right;
    let n = left.len() as int;
    assert(s[n] == mid);
    assert forall|i: int| 0 <= i < left.len() implies #[trigger] left[i] == s[i] by {}
    assert forall|i: int| 0 <= i < right.len() implies #[trigger] right[i] == s[n + 1 + i] by {}
}

/// Where the parts of a subtree stand in the whole.
proof fn lemma_whole<T>(left: Seq<Span<T>>, mid: Span<T>, right: Seq<Span<T>>)
    ensures
        ({
            let s = left + seq![mid] + right;
            let n = left.len() as int;
            &&& forall|i: int| 0 <= i < n ==> #[trigger] left[i] == s[i]
            &&& s[n] == mid
            &&& forall|i: int| 0 <= i < right.len() ==> #[trigger] right[i] == s[n + 1 + i]
            &&& forall|i: int|
                0 <= i < s.len() ==> #[trigger] s[i] == if i < n {
                    left[i]
                } else if i == n {
                    mid
                } else {
                    right[i - n - 1]
                }
        }),
{
}

proof fn lemma_insert_left<T>(
    left: Seq<Span<T>>,
    mid: Span<T>,
    right: Seq<Span<T>>,
    after: Seq<Span<T>>,
    new: Span<T>,
)
    requires
        ordered(left + seq![mid] + right),
        vacant(left + seq![mid] + right, new.start, new.end),
        new.start < new.end,
        new.start < mid.start,
        inserted(left, after, new),
    ensures
        inserted(left + seq![mid] + right, after + seq![mid] + right, new),
{
    lemma_parts(left, mid, right, new.start, new.end);
    let s = left + seq![mid] + right;
    let k = choose|k: int|
        fits_at(left, k, new.start, new.end) && after == #[trigger] left.insert(k, new);
    assert(s.insert(k, new) =~= after + seq![mid] + right);
    assert forall|i: int| k <= i < s.len() implies new.end <= (#[trigger] s[i]).start by {
        if i < left.len() {
            assert(s[i] == left[i]);
        } else if i > left.len() {
            assert(s[i] == right[i - left.len() - 1]);
        }
    }
    assert(fits_at(s, k, new.start, new.end));
}

proof fn lemma_insert_right<T>(
    left: Seq<Span<T>>,
    mid: Span<T>,
    right: Seq<Span<T>>,
    after: Seq<Span<T>>,
    new: Span<T>,
)
    requires
        ordered(left + seq![mid] + right),
        vacant(left + seq![mid] + right, new.start, new.end),
        new.start < new.end,
        new.start >= mid.start,
        inserted(right, after, new),
    ensures
        inserted(left + seq![mid] + right, left + seq![mid] + after, new),
{
    lemma_parts(left, mid, right, new.start, new.end);
    let s = left + seq![mid] + right;
    let k = choose|k: int|
        fits_at(right, k, new.start, new.end) && after == #[trigger] right.insert(k, new);
    let j = left.len() + 1 + k;
    assert(s.insert(j, new) =~= left + seq![mid] + after);
    assert forall|i: int| 0 <= i < j implies (#[trigger] s[i]).end <= new.start by {
        if i < left.len() {
            assert(s[i] == left[i]);
        } else if i > left.len() {
            assert(s[i] == right[i - left.len() - 1]);
        }
    }
    assert forall|i: int| j <= i < s.len() implies new.end <= (#[trigger] s[i]).start by {
        assert(s[i] == right[i - left.len() - 1]);
    }
    assert(fits_at(s, j, new.start, new.end));
}

fn insert_node<T>(h: Link<T>, start: u64, end: u64, value: T) -> (r: Box<Node<T>>)
    requires
        sound(h),
        ordered(spans(h)),
        vacant(spans(h), start, end),
        start < end,
    ensures
        height(Some(r)) == height(h),
        leaning(Some(r)),
        !red(h) ==> sound(Some(r)),
        inserted(spans(h), spans(Some(r)), Span { start, end, value }),
    decreases h,
{
    let mut h = match h {
        None => {
            let node = Node::new(start, end, value);
            proof {
                reveal_with_fuel(sound, 3);
                reveal_with_fuel(leaning, 3);
                reveal_with_fuel(height, 3);
                reveal_with_fuel(spans, 3);
                let s = Seq::<Span<T>>::empty();
                assert(fits_at(s, 0, start, end));
                assert(spans(Some(node)) =~= s.insert(0, Span { start, end, value }));
            }
            return node;
        },
        Some(node) => node,
    };
    let ghost mid = h.span();
    let ghost left = spans(h.left);
    let ghost right = spans(h.right);
    proof {
        reveal_with_fuel(sound, 2);
        reveal_with_fuel(leaning, 2);
        reveal_with_fuel(height, 2);
        lemma_parts(left, mid, right, start, end);
    }
    if start < h.start {
        let child = insert_node(h.left.take(), start, end, value);
        proof {
            lemma_insert_left(left, mid, right, spans(Some(child)), Span { start, end, value });
        }
        h.left = Some(child);
    } else {
        let child = insert_node(h.right.take(), start, end, value);
        proof {
            lemma_insert_right(left, mid, right, spans(Some(child)), Span { start, end, value });
        }
        h.right = Some(child);
    }
    fix_up(h)
}

/// Takes the leftmost node out of a subtree that has a red node to give.
fn delete_min<T>(h: Box<Node<T>>) -> (r: (Link<T>, Box<Node<T>>))
    requires
        sound(Some(h)),
        h.color == Color::Red || red(h.left),
    ensures
        seq![r.1.span()] + spans(r.0) == spans(Some(h)),
        sound(r.0),
        height(r.0) == height(Some(h)),
        red(r.0) ==> h.color == Color::Red,
    decreases spans(Some(h)).len(),
{
    let mut h = h;
    proof {
        reveal_with_fuel(sound, 3);
        reveal_with_fuel(leaning, 3);
        reveal_with_fuel(height, 3);
    }
    if h.left.is_none() {
        proof {
            if h.right is Some {
                lemma_height_positive(h.right->0.left);
            }
            reveal_with_fuel(spans, 2);
            assert(spans(Some(h)) =~= seq![h.span()]);
        }
        return (None, h);
    }
    if !is_red(&h.left) && !is_red(&h.left.as_ref().unwrap().left) {
        h = move_red_left(h);
    }
    let ghost before = spans(Some(h));
    let ghost mid = h.span();
    let ghost right = spans(h.right);
    let left = h.left.take().unwrap();
    let ghost left_spans = spans(Some(left));
    let (new_left, min) = delete_min(left);
    h.left = new_left;
    proof {
        assert(before =~= left_spans + seq![mid] + right);
        assert(before =~= seq![min.span()] + spans(Some(h)));
    }
    (Some(fix_up(h)), min)
}

/// Which part of a subtree holds the range that begins at `start`, and what
/// taking it out of that part does to the whole.
proof fn lemma_locate<T>(left: Seq<Span<T>>, mid: Span<T>, right: Seq<Span<T>>, i: int)
    requires
        ordered(left + seq![mid] + right),
        0 <= i < left.len() + 1 + right.len(),
    ensures
        ({
            let s = left + seq![mid] + right;
            let n = left.len() as int;
            &&& ordered(left)
            &&& ordered(right)
            &&& s[i].start < mid.start ==> i < n && s[i] == left[i] && s.remove(i) == left.remove(i)
                + seq![mid] + right
            &&& s[i].start == mid.start ==> i == n && s[i] == mid && s.remove(i) == left + right
            &&& s[i].start > mid.start ==> i > n && s[i] == right[i - n - 1] && s.remove(i) == left
                + seq![mid] + right.remove(i - n - 1)
        }),
{
    let s = left + seq![mid] + right;
    let n = left.len() as int;
    lemma_parts(left, mid, right, 0, 0);
    if i < n {
        assert(s[i] == left[i]);
        assert(s.remove(i) =~= left.remove(i) + seq![mid] + right);
    } else if i == n {
        assert(s.remove(i) =~= left + right);
    } else {
        assert(s[i] == right[i - n - 1]);
        assert(s.remove(i) =~= left + seq![mid] + right.remove(i - n - 1));
    }
}

/// Takes the range that begins at `start` out of a subtree that has a red node
/// to give, and leaves its value in `removed`. `i` is the range's position.
#[verifier::spinoff_prover]
fn delete_node<T>(h: Box<Node<T>>, start: u64, removed: &mut Option<T>, Ghost(i): Ghost<int>) -> (r:
    Link<T>)
    requires
        ordered(spans(Some(h))),
        0 <= i < spans(Some(h)).len(),
        spans(Some(h))[i].start == start,
        (sound(Some(h)) && (h.color == Color::Red || red(h.left))) || (bent(*h) && start >= h.start),
    ensures
        spans(r) == spans(Some(h)).remove(i),
        *final(removed) == Some(spans(Some(h))[i].value),
        sound(r),
        height(r) == height(Some(h)),
        red(r) ==> h.color == Color::Red,
    decreases spans(Some(h)).len(),
{
    let mut h = h;
    let ghost all = spans(Some(h));
    proof {
        reveal_with_fuel(sound, 3);
        reveal_with_fuel(leaning, 3);
        reveal_with_fuel(height, 3);
        lemma_locate(spans(h.left), h.span(), spans(h.right), i);
    }
    if start < h.start {
        if h.left.is_some() {
            if !is_red(&h.left) && !is_red(&h.left.as_ref().unwrap().left) {
                h = move_red_left(h);
                proof {
                    lemma_locate(spans(h.left), h.span(), spans(h.right), i);
                }
            }
            let left = h.left.take().unwrap();
            h.left = delete_node(left, start, removed, Ghost(i));
            assert(leaning(h.left));
        }
    } else {
        if is_red(&h.left) {
            h = rotate_right(h);
            proof {
                assert(sound(h.left));
                lemma_locate(spans(h.left), h.span(), spans(h.right), i);
            }
        }
        if start == h.start && h.right.is_none() {
            proof {
                if h.left is Some {
                    lemma_height_positive(h.left->0.left);
                }
                reveal_with_fuel(spans, 2);
                assert(all.remove(i) =~= Seq::empty());
            }
            let node = *h;
            *removed = Some(node.value);
            return None;
        }
        if h.right.is_some() {
            if !is_red(&h.right) && !is_red(&h.right.as_ref().unwrap().left) {
                h = move_red_right(h);
                proof {
                    lemma_locate(spans(h.left), h.span(), spans(h.right), i);
                }
            }
            let ghost at = i - spans(h.left).len() - 1;
            if start == h.start {
                let right = h.right.take().unwrap();
                let (new_right, mut successor) = delete_min(right);
                let node = *h;
                *removed = Some(node.value);
                successor.left = node.left;
                successor.right = new_right;
                successor.color = node.color;
                proof {
                    assert(all.remove(i) =~= spans(Some(successor)));
                }
                return Some(fix_up(successor));
            }
            let right = h.right.take().unwrap();
            h.right = delete_node(right, start, removed, Ghost(at));
            assert(sound(h.left));
        }
    }
    Some(fix_up(h))
}

#[derive(Clone, Copy, Debug, PartialEq, Eq, Structural)]
pub enum RangeMapError {
    Empty,
    Overflow,
    Overlap,
    NotFound,
    Mismatch,
    InvalidAlignment,
}

#[derive(Clone, Copy, Debug, PartialEq, Eq)]
pub struct RangeEntry<'a, T> {
    pub start: u64,
    pub end: u64,
    pub value: &'a T,
}

impl<'a, T> RangeEntry<'a, T> {
    pub open spec fn span(self) -> Span<T> {
        Span { start: self.start, end: self.end, value: *self.value }
    }

    pub fn size(&self) -> (r: u64)
        requires
            self.start <= self.end,
        ensures
            r == self.end - self.start,
    {
        self.end - self.start
    }
}

#[derive(Debug)]
pub struct RangeMap<T> {
    root: Link<T>,
    len: u64,
}

/// The ranges as a map from where each starts to where it ends and its value.
pub open spec fn span_map<T>(s: Seq<Span<T>>) -> Map<u64, (u64, T)> {
    Map::new(
        |k: u64| exists|i: int| 0 <= i < s.len() && (#[trigger] s[i]).start == k,
        |k: u64|
            {
                let i = choose|i: int| 0 <= i < s.len() && (#[trigger] s[i]).start == k;
                (s[i].end, s[i].value)
            },
    )
}

/// What `span_map` holds of an ordered sequence.
pub proof fn lemma_span_map<T>(s: Seq<Span<T>>)
    requires
        ordered(s),
    ensures
        forall|i: int|
            0 <= i < s.len() ==> #[trigger] span_map(s).contains_pair(
                s[i].start,
                (s[i].end, s[i].value),
            ),
        forall|k: u64| #[trigger]
            span_map(s).contains_key(k) ==> exists|i: int|
                0 <= i < s.len() && (#[trigger] s[i]).start == k && span_map(s)[k] == (
                    s[i].end,
                    s[i].value,
                ),
{
    assert forall|i: int| 0 <= i < s.len() implies #[trigger] span_map(s).contains_pair(
        s[i].start,
        (s[i].end, s[i].value),
    ) by {
        let k = s[i].start;
        let j = choose|j: int| 0 <= j < s.len() && (#[trigger] s[j]).start == k;
        assert(s[j].start == s[i].start);
        assert(i == j);
    }
    assert forall|k: u64| #[trigger] span_map(s).contains_key(k) implies exists|i: int|
        0 <= i < s.len() && (#[trigger] s[i]).start == k && span_map(s)[k] == (
            s[i].end,
            s[i].value,
        ) by {
        let j = choose|j: int| 0 <= j < s.len() && (#[trigger] s[j]).start == k;
        assert(s[j].start == k);
    }
}

proof fn lemma_map_insert<T>(before: Seq<Span<T>>, after: Seq<Span<T>>, new: Span<T>)
    requires
        ordered(before),
        new.start < new.end,
        inserted(before, after, new),
    ensures
        ordered(after),
        after.len() == before.len() + 1,
        span_map(after) == span_map(before).insert(new.start, (new.end, new.value)),
{
    let k = choose|k: int|
        fits_at(before, k, new.start, new.end) && after == #[trigger] before.insert(k, new);
    assert forall|i: int| 0 <= i < after.len() implies #[trigger] after[i] == if i < k {
        before[i]
    } else if i == k {
        new
    } else {
        before[i - 1]
    } by {}
    assert(ordered(after));
    lemma_span_map(before);
    lemma_span_map(after);
    let a = span_map(after);
    let b = span_map(before).insert(new.start, (new.end, new.value));
    assert forall|x: u64| a.contains_key(x) <==> b.contains_key(x) by {
        if a.contains_key(x) {
            let i = choose|i: int| 0 <= i < after.len() && (#[trigger] after[i]).start == x;
            if i < k {
                assert(before[i].start == x);
            } else if i > k {
                assert(before[i - 1].start == x);
            }
        }
        if b.contains_key(x) {
            if x == new.start {
                assert(after[k].start == x);
            } else {
                let i = choose|i: int| 0 <= i < before.len() && (#[trigger] before[i]).start == x;
                if i < k {
                    assert(after[i].start == x);
                } else {
                    assert(after[i + 1].start == x);
                }
            }
        }
    }
    assert forall|x: u64| a.contains_key(x) implies a[x] == b[x] by {
        let i = choose|i: int| 0 <= i < after.len() && (#[trigger] after[i]).start == x;
        assert(a.contains_pair(after[i].start, (after[i].end, after[i].value)));
        if i < k {
            assert(span_map(before).contains_pair(before[i].start, (before[i].end, before[i].value)));
            assert(before[i].end <= new.start);
        } else if i > k {
            assert(span_map(before).contains_pair(
                before[i - 1].start,
                (before[i - 1].end, before[i - 1].value),
            ));
        }
    }
    assert(a =~= b);
}

proof fn lemma_map_remove<T>(s: Seq<Span<T>>, i: int)
    requires
        ordered(s),
        0 <= i < s.len(),
    ensures
        ordered(s.remove(i)),
        span_map(s.remove(i)) == span_map(s).remove(s[i].start),
{
    let after = s.remove(i);
    let k = s[i].start;
    assert forall|j: int| 0 <= j < after.len() implies #[trigger] after[j] == if j < i {
        s[j]
    } else {
        s[j + 1]
    } by {}
    assert(ordered(after));
    lemma_span_map(s);
    lemma_span_map(after);
    let a = span_map(after);
    let b = span_map(s).remove(k);
    assert forall|x: u64| a.contains_key(x) <==> b.contains_key(x) by {
        if a.contains_key(x) {
            let j = choose|j: int| 0 <= j < after.len() && (#[trigger] after[j]).start == x;
            if j < i {
                assert(s[j].start == x);
            } else {
                assert(s[j + 1].start == x);
            }
        }
        if b.contains_key(x) {
            let j = choose|j: int| 0 <= j < s.len() && (#[trigger] s[j]).start == x;
            if j < i {
                assert(after[j].start == x);
            } else {
                assert(after[j - 1].start == x);
            }
        }
    }
    assert forall|x: u64| a.contains_key(x) implies a[x] == b[x] by {
        let j = choose|j: int| 0 <= j < after.len() && (#[trigger] after[j]).start == x;
        assert(a.contains_pair(after[j].start, (after[j].end, after[j].value)));
        let jj = if j < i { j } else { j + 1 };
        assert(span_map(s).contains_pair(s[jj].start, (s[jj].end, s[jj].value)));
    }
    assert(a =~= b);
}

proof fn lemma_map_update<T>(s: Seq<Span<T>>, i: int, value: T)
    requires
        ordered(s),
        0 <= i < s.len(),
    ensures
        ({
            let after = s.update(i, Span { start: s[i].start, end: s[i].end, value });
            &&& ordered(after)
            &&& span_map(after) == span_map(s).insert(s[i].start, (s[i].end, value))
        }),
{
    let after = s.update(i, Span { start: s[i].start, end: s[i].end, value });
    assert forall|j: int| 0 <= j < after.len() implies (#[trigger] after[j]).start == s[j].start
        && after[j].end == s[j].end by {}
    assert(ordered(after));
    lemma_span_map(s);
    lemma_span_map(after);
    let a = span_map(after);
    let b = span_map(s).insert(s[i].start, (s[i].end, value));
    assert forall|x: u64| a.contains_key(x) <==> b.contains_key(x) by {
        if a.contains_key(x) {
            let j = choose|j: int| 0 <= j < after.len() && (#[trigger] after[j]).start == x;
            assert(s[j].start == x);
        }
        if b.contains_key(x) {
            let j = choose|j: int| 0 <= j < s.len() && (#[trigger] s[j]).start == x;
            if x == s[i].start {
                assert(after[i].start == x);
            } else {
                assert(after[j].start == x);
            }
        }
    }
    assert forall|x: u64| a.contains_key(x) implies a[x] == b[x] by {
        let j = choose|j: int| 0 <= j < after.len() && (#[trigger] after[j]).start == x;
        assert(a.contains_pair(after[j].start, (after[j].end, after[j].value)));
        assert(span_map(s).contains_pair(s[j].start, (s[j].end, s[j].value)));
    }
    assert(a =~= b);
}

proof fn lemma_map_updates<T>(s: Seq<Span<T>>)
    requires
        ordered(s),
    ensures
        forall|i: int, value: T|
            0 <= i < s.len() ==> {
                let after = #[trigger] s.update(i, Span { start: s[i].start, end: s[i].end, value });
                &&& ordered(after)
                &&& span_map(after) == span_map(s).insert(s[i].start, (s[i].end, value))
            },
{
    assert forall|i: int, value: T| 0 <= i < s.len() implies {
        let after = #[trigger] s.update(i, Span { start: s[i].start, end: s[i].end, value });
        &&& ordered(after)
        &&& span_map(after) == span_map(s).insert(s[i].start, (s[i].end, value))
    } by {
        lemma_map_update(s, i, value);
    }
}

/// There is room for at most one range per address.
proof fn lemma_len_bound<T>(s: Seq<Span<T>>)
    requires
        ordered(s),
    ensures
        s.len() <= u64::MAX,
        s.len() > 0 ==> s.len() <= s.last().end,
    decreases s.len(),
{
    if s.len() > 1 {
        let t = s.drop_last();
        assert forall|i: int| 0 <= i < t.len() implies #[trigger] t[i] == s[i] by {}
        lemma_len_bound(t);
        assert(t.last() == s[s.len() - 2]);
        assert(s[s.len() - 2].end <= s[s.len() - 1].start);
        assert(s[s.len() - 1].start < s[s.len() - 1].end);
    } else if s.len() == 1 {
        assert(s[0].start < s[0].end);
    }
}

/// No red node has a red child, and every path down holds as many black nodes.
spec fn balanced<T>(link: Link<T>) -> bool
    decreases link,
{
    match link {
        None => true,
        Some(node) => {
            &&& balanced(node.left)
            &&& balanced(node.right)
            &&& height(node.left) == height(node.right)
            &&& node.color == Color::Red ==> !red(node.left) && !red(node.right)
        },
    }
}

proof fn lemma_sound_balanced<T>(link: Link<T>)
    requires
        sound(link),
    ensures
        balanced(link),
    decreases link,
{
    if let Some(node) = link {
        lemma_sound_balanced(node.left);
        lemma_sound_balanced(node.right);
    }
}

/// A black height is at most about half the number of nodes.
proof fn lemma_height_bound<T>(link: Link<T>)
    requires
        balanced(link),
    ensures
        2 * height(link) <= spans(link).len() + 3,
    decreases link,
{
    if let Some(node) = link {
        lemma_height_bound(node.left);
        lemma_height_bound(node.right);
        lemma_height_positive(node.left);
        if node.left is None || node.right is None {
            reveal_with_fuel(height, 2);
        }
    }
}

fn validate_order<T>(node: &Link<T>, previous_end: &mut Option<u64>, count: &mut u64) -> (r: bool)
    requires
        *old(count) <= old(previous_end).unwrap_or(0),
    ensures
        r == (ordered(spans(*node)) && (*old(previous_end) is Some && spans(*node).len() > 0
            ==> old(previous_end)->0 <= spans(*node)[0].start)),
        r ==> *final(count) == *old(count) + spans(*node).len(),
        r ==> *final(previous_end) == if spans(*node).len() == 0 {
            *old(previous_end)
        } else {
            Some(spans(*node).last().end)
        },
        r ==> *final(count) <= final(previous_end).unwrap_or(0),
    decreases node,
{
    let node = match node {
        None => {
            return true;
        },
        Some(node) => node,
    };
    let ghost left = spans(node.left);
    let ghost right = spans(node.right);
    let ghost mid = node.span();
    let ghost all = left + seq![mid] + right;
    let ghost prev0 = *previous_end;
    proof {
        if ordered(all) {
            lemma_parts(left, mid, right, 0, 0);
        }
        assert(left.len() > 0 ==> all[0] == left[0]);
        assert(all[left.len() as int] == mid);
        assert(left.len() > 0 ==> all[left.len() - 1] == left.last());
        assert(right.len() > 0 ==> all[left.len() as int + 1] == right[0]);
    }
    if !validate_order(&node.left, previous_end, count) {
        return false;
    }
    if let Some(previous_end) = previous_end {
        if *previous_end > node.start {
            proof {
                assert(!(ordered(all) && (prev0 is Some ==> prev0->0 <= all[0].start)));
            }
            return false;
        }
    }
    if node.start >= node.end {
        return false;
    }
    *previous_end = Some(node.end);
    *count += 1;
    let r = validate_order(&node.right, previous_end, count);
    proof {
        if r {
            assert forall|i: int| 0 <= i < all.len() implies #[trigger] all[i] == if i < left.len() {
                left[i]
            } else if i == left.len() {
                mid
            } else {
                right[i - left.len() - 1]
            } by {}
            assert forall|i: int, j: int|
                #![trigger all[i], all[j]]
                0 <= i < j < all.len() implies all[i].end <= all[j].start by {
                if i < left.len() {
                    assert(left[i].end <= left.last().end);
                }
                if j > left.len() {
                    assert(right[0].start <= right[j - left.len() - 1].start);
                }
            }
            assert(ordered(all));
            assert(right.len() > 0 ==> all.last() == right.last());
        }
    }
    r
}

fn black_height<T>(node: &Link<T>) -> (r: Option<u64>)
    requires
        spans(*node).len() <= u64::MAX,
    ensures
        match r {
            Some(h) => balanced(*node) && h == height(*node),
            None => !balanced(*node),
        },
    decreases node,
{
    let node = match node {
        None => {
            return Some(1);
        },
        Some(node) => node,
    };
    if node.color == Color::Red && (is_red(&node.left) || is_red(&node.right)) {
        return None;
    }
    let left = match black_height(&node.left) {
        Some(left) => left,
        None => {
            return None;
        },
    };
    let right = match black_height(&node.right) {
        Some(right) => right,
        None => {
            return None;
        },
    };
    if left != right {
        return None;
    }
    proof {
        lemma_height_bound(Some(*node));
    }
    if node.color == Color::Black {
        Some(left + 1)
    } else {
        Some(left)
    }
}

/// The range at position `i` has had its value replaced, and nothing else.
spec fn updated<T>(before: Link<T>, after: Link<T>, i: int, value: T) -> bool {
    let s = spans(before);
    &&& 0 <= i < s.len()
    &&& spans(after) == s.update(i, Span { start: s[i].start, end: s[i].end, value })
    &&& sound(before) ==> sound(after)
    &&& height(after) == height(before)
    &&& red(after) == red(before)
}

proof fn lemma_updated_left<T>(before: Node<T>, after: Node<T>, i: int, value: T)
    requires
        updated(before.left, after.left, i, value),
        after == (Node { left: after.left, ..before }),
    ensures
        updated(Some(Box::new(before)), Some(Box::new(after)), i, value),
        spans(Some(Box::new(before)))[i] == spans(before.left)[i],
{
    reveal_with_fuel(sound, 2);
    reveal_with_fuel(leaning, 2);
    let s = spans(Some(Box::new(before)));
    assert(spans(Some(Box::new(after))) =~= s.update(
        i,
        Span { start: s[i].start, end: s[i].end, value },
    ));
}

proof fn lemma_updated_right<T>(before: Node<T>, after: Node<T>, i: int, value: T)
    requires
        updated(before.right, after.right, i, value),
        after == (Node { right: after.right, ..before }),
    ensures
        updated(
            Some(Box::new(before)),
            Some(Box::new(after)),
            spans(before.left).len() + 1 + i,
            value,
        ),
        spans(Some(Box::new(before)))[spans(before.left).len() + 1 + i] == spans(before.right)[i],
{
    reveal_with_fuel(sound, 2);
    reveal_with_fuel(leaning, 2);
    let s = spans(Some(Box::new(before)));
    let j = spans(before.left).len() + 1 + i;
    assert(spans(Some(Box::new(after))) =~= s.update(
        j,
        Span { start: s[j].start, end: s[j].end, value },
    ));
}

proof fn lemma_updated_here<T>(before: Node<T>, after: Node<T>)
    requires
        after == (Node { value: after.value, ..before }),
    ensures
        updated(
            Some(Box::new(before)),
            Some(Box::new(after)),
            spans(before.left).len() as int,
            after.value,
        ),
        spans(Some(Box::new(before)))[spans(before.left).len() as int] == before.span(),
{
    reveal_with_fuel(sound, 2);
    reveal_with_fuel(leaning, 2);
    let s = spans(Some(Box::new(before)));
    let j = spans(before.left).len() as int;
    assert(spans(Some(Box::new(after))) =~= s.update(
        j,
        Span { start: s[j].start, end: s[j].end, value: after.value },
    ));
}

proof fn lemma_updates<T>(before: Node<T>)
    ensures
        forall|left: Link<T>, i: int, value: T| #[trigger]
            updated(before.left, left, i, value) ==> {
                &&& updated(
                    Some(Box::new(before)),
                    Some(Box::new(Node { left, ..before })),
                    i,
                    value,
                )
                &&& spans(Some(Box::new(before)))[i] == spans(before.left)[i]
            },
        forall|right: Link<T>, i: int, value: T| #[trigger]
            updated(before.right, right, i, value) ==> {
                let j = spans(before.left).len() + 1 + i;
                &&& updated(
                    Some(Box::new(before)),
                    Some(Box::new(Node { right, ..before })),
                    j,
                    value,
                )
                &&& spans(Some(Box::new(before)))[j] == spans(before.right)[i]
            },
        forall|after: Node<T>, i: int, value: T|
            #![trigger updated(Some(Box::new(before)), Some(Box::new(after)), i, value)]
            after == (Node { value, ..before }) && i == spans(before.left).len() ==> {
                &&& updated(Some(Box::new(before)), Some(Box::new(after)), i, value)
                &&& spans(Some(Box::new(before)))[i] == before.span()
            },
{
    assert forall|left: Link<T>, i: int, value: T| #[trigger]
        updated(before.left, left, i, value) implies {
        &&& updated(Some(Box::new(before)), Some(Box::new(Node { left, ..before })), i, value)
        &&& spans(Some(Box::new(before)))[i] == spans(before.left)[i]
    } by {
        lemma_updated_left(before, Node { left, ..before }, i, value);
    }
    assert forall|right: Link<T>, i: int, value: T| #[trigger]
        updated(before.right, right, i, value) implies {
        let j = spans(before.left).len() + 1 + i;
        &&& updated(Some(Box::new(before)), Some(Box::new(Node { right, ..before })), j, value)
        &&& spans(Some(Box::new(before)))[j] == spans(before.right)[i]
    } by {
        lemma_updated_right(before, Node { right, ..before }, i, value);
    }
    assert forall|after: Node<T>, i: int, value: T|
        #![trigger updated(Some(Box::new(before)), Some(Box::new(after)), i, value)]
        after == (Node { value, ..before }) && i == spans(before.left).len() implies {
        &&& updated(Some(Box::new(before)), Some(Box::new(after)), i, value)
        &&& spans(Some(Box::new(before)))[i] == before.span()
    } by {
        lemma_updated_here(before, after);
    }
}

/// The position of the range that holds `addr`.
spec fn position_at<T>(s: Seq<Span<T>>, addr: u64) -> int {
    choose|i: int| 0 <= i < s.len() && (#[trigger] s[i]).start <= addr < s[i].end
}

proof fn lemma_position<T>(s: Seq<Span<T>>, addr: u64)
    requires
        ordered(s),
    ensures
        forall|i: int|
            0 <= i < s.len() && (#[trigger] s[i]).start <= addr < s[i].end ==> i == position_at(
                s,
                addr,
            ),
        vacant_at(s, addr) || {
            let i = position_at(s, addr);
            0 <= i < s.len() && s[i].start <= addr < s[i].end
        },
{
    let p = position_at(s, addr);
    assert forall|i: int| 0 <= i < s.len() && (#[trigger] s[i]).start <= addr < s[i].end implies i
        == p by {
        assert(s[p].start <= addr < s[p].end);
    }
}

/// The range around `addr`, with its value open to change.
fn covering_mut<T>(link: &mut Link<T>, addr: u64) -> (r: Option<(u64, u64, &mut T)>)
    requires
        ordered(spans(*old(link))),
    ensures
        match r {
            Some((start, end, value)) => {
                let i = position_at(spans(*old(link)), addr);
                &&& start <= addr < end
                &&& updated(*old(link), *final(link), i, *final(value))
                &&& spans(*old(link))[i] == (Span { start, end, value: *value })
            },
            None => {
                &&& *final(link) == *old(link)
                &&& vacant_at(spans(*old(link)), addr)
            },
        },
    decreases *old(link),
{
    match link {
        None => None,
        Some(node) => {
            let ghost before = **node;
            proof {
                lemma_updates(before);
                lemma_parts(spans(node.left), node.span(), spans(node.right), 0, 0);
                lemma_position(spans(node.left), addr);
                lemma_position(spans(node.right), addr);
                lemma_position(spans(Some(*node)), addr);
                lemma_whole(spans(node.left), node.span(), spans(node.right));
            }
            if addr < node.start {
                covering_mut(&mut node.left, addr)
            } else if addr >= node.end {
                covering_mut(&mut node.right, addr)
            } else {
                Some((node.start, node.end, &mut node.value))
            }
        },
    }
}

/// None of the ranges holds `addr`.
pub open spec fn vacant_at<T>(s: Seq<Span<T>>, addr: u64) -> bool {
    forall|i: int| 0 <= i < s.len() ==> !((#[trigger] s[i]).start <= addr < s[i].end)
}

/// The least multiple of `align` that is not below `addr`.
pub open spec fn aligned_up(addr: int, align: int) -> int {
    if addr % align == 0 {
        addr
    } else {
        addr + align - addr % align
    }
}

proof fn lemma_aligned_up(addr: int, align: int)
    requires
        align > 0,
        addr >= 0,
    ensures
        aligned_up(addr, align) >= addr,
        aligned_up(addr, align) % align == 0,
        forall|a: int| a >= addr && #[trigger] (a % align) == 0 ==> a >= aligned_up(addr, align),
{
    let up = aligned_up(addr, align);
    let q = addr / align;
    let r = addr % align;
    vstd::arithmetic::div_mod::lemma_fundamental_div_mod(addr, align);
    if r != 0 {
        assert(up == align * (q + 1)) by (nonlinear_arith)
            requires
                addr == align * q + r,
                up == addr + align - r,
        ;
        vstd::arithmetic::div_mod::lemma_mod_multiples_basic(q + 1, align);
        vstd::arithmetic::mul::lemma_mul_is_commutative(q + 1, align);
    }
    assert forall|a: int| a >= addr && #[trigger] (a % align) == 0 implies a >= up by {
        if r != 0 {
            vstd::arithmetic::div_mod::lemma_fundamental_div_mod(a, align);
            let p = a / align;
            assert(p >= q + 1) by (nonlinear_arith)
                requires
                    a == align * p,
                    a >= addr,
                    addr == align * q + r,
                    0 < r,
                    align > 0,
            ;
            assert(align * p >= align * (q + 1)) by (nonlinear_arith)
                requires
                    p >= q + 1,
                    align > 0,
            ;
        }
    }
}

fn align_up(addr: u64, align: u64) -> (r: Option<u64>)
    requires
        align != 0,
    ensures
        match r {
            Some(up) => up == aligned_up(addr as int, align as int),
            None => aligned_up(addr as int, align as int) > u64::MAX,
        },
{
    if align == 1 {
        return Some(addr);
    }
    let rem: u64 = addr % align;
    if rem == 0 {
        Some(addr)
    } else {
        addr.checked_add(align - rem)
    }
}

/// `[start, end)` meets none of the ranges.
pub open spec fn unoccupied<T>(m: Map<u64, (u64, T)>, start: u64, end: u64) -> bool {
    forall|k: u64| #[trigger] m.contains_key(k) ==> !(k < end && start < m[k].0)
}

/// None of the ranges holds `addr`.
pub open spec fn uncovered<T>(m: Map<u64, (u64, T)>, addr: u64) -> bool {
    forall|k: u64| #[trigger] m.contains_key(k) ==> !(k <= addr < m[k].0)
}

/// No range is empty and no two of them meet.
pub open spec fn disjoint<T>(m: Map<u64, (u64, T)>) -> bool {
    &&& forall|k: u64| #[trigger] m.contains_key(k) ==> k < m[k].0
    &&& forall|j: u64, k: u64| #[trigger]
        m.contains_key(j) && #[trigger] m.contains_key(k) && j < k ==> m[j].0 <= k
}

/// `at` is aligned, `[at, at + size)` lies in `[min, max)` and meets no range.
pub open spec fn gap_at<T>(
    m: Map<u64, (u64, T)>,
    size: u64,
    align: u64,
    min: u64,
    max: u64,
    at: u64,
) -> bool {
    &&& at as int % align as int == 0
    &&& min <= at
    &&& at + size <= max
    &&& unoccupied(m, at, (at + size) as u64)
}

proof fn lemma_vacant<T>(s: Seq<Span<T>>)
    requires
        ordered(s),
    ensures
        forall|start: u64, end: u64|
            vacant(s, start, end) == #[trigger] unoccupied(span_map(s), start, end),
        forall|addr: u64| vacant_at(s, addr) == #[trigger] uncovered(span_map(s), addr),
{
    let m = span_map(s);
    lemma_span_map(s);
    assert forall|start: u64, end: u64|
        vacant(s, start, end) == #[trigger] unoccupied(m, start, end) by {
        if vacant(s, start, end) {
            assert forall|k: u64| #[trigger] m.contains_key(k) implies !(k < end && start
                < m[k].0) by {}
        }
        if unoccupied(m, start, end) {
            assert forall|i: int| 0 <= i < s.len() implies !((#[trigger] s[i]).start < end && start
                < s[i].end) by {
                assert(m.contains_pair(s[i].start, (s[i].end, s[i].value)));
            }
        }
    }
    assert forall|addr: u64| vacant_at(s, addr) == #[trigger] uncovered(m, addr) by {
        if vacant_at(s, addr) {
            assert forall|k: u64| #[trigger] m.contains_key(k) implies !(k <= addr < m[k].0) by {}
        }
        if uncovered(m, addr) {
            assert forall|i: int| 0 <= i < s.len() implies !((#[trigger] s[i]).start <= addr
                < s[i].end) by {
                assert(m.contains_pair(s[i].start, (s[i].end, s[i].value)));
            }
        }
    }
}

/// An ordered sequence has as many ranges as its map has keys, and they are
/// disjoint.
proof fn lemma_map_shape<T>(s: Seq<Span<T>>)
    requires
        ordered(s),
    ensures
        disjoint(span_map(s)),
        span_map(s).dom().finite(),
        span_map(s).dom().len() == s.len(),
    decreases s.len(),
{
    let m = span_map(s);
    lemma_span_map(s);
    assert forall|j: u64, k: u64| #[trigger]
        m.contains_key(j) && #[trigger] m.contains_key(k) && j < k implies m[j].0 <= k by {
        let a = choose|i: int|
            0 <= i < s.len() && (#[trigger] s[i]).start == j && m[j] == (s[i].end, s[i].value);
        let b = choose|i: int|
            0 <= i < s.len() && (#[trigger] s[i]).start == k && m[k] == (s[i].end, s[i].value);
        assert(s[a].start < s[b].start);
    }
    if s.len() == 0 {
        assert(m.dom() =~= Set::empty());
    } else {
        let last = s.len() - 1;
        let t = s.remove(last);
        lemma_map_remove(s, last);
        lemma_map_shape(t);
        assert(m.contains_pair(s[last].start, (s[last].end, s[last].value)));
        assert(m.dom() =~= span_map(t).dom().insert(s[last].start));
        assert(!span_map(t).dom().contains(s[last].start));
    }
}

proof fn lemma_in_parts<T>(left: Seq<Span<T>>, mid: Span<T>, right: Seq<Span<T>>)
    ensures
        forall|x: Span<T>| #[trigger]
            (left + seq![mid] + right).contains(x) <==> left.contains(x) || x == mid
                || right.contains(x),
{
    let all = left + seq![mid] + right;
    let n = left.len() as int;
    assert forall|x: Span<T>| #[trigger] all.contains(x) <==> left.contains(x) || x == mid
        || right.contains(x) by {
        if left.contains(x) {
            let i = choose|i: int| 0 <= i < left.len() && left[i] == x;
            assert(all[i] == x);
        }
        if x == mid {
            assert(all[n] == x);
        }
        if right.contains(x) {
            let i = choose|i: int| 0 <= i < right.len() && right[i] == x;
            assert(all[n + 1 + i] == x);
        }
        if all.contains(x) {
            let i = choose|i: int| 0 <= i < all.len() && all[i] == x;
            if i < n {
                assert(left[i] == x);
            } else if i > n {
                assert(right[i - n - 1] == x);
            }
        }
    }
}

fn visit_in_order<'a, T>(node: &'a Link<T>, out: &mut Vec<RangeEntry<'a, T>>)
    ensures
        final(out)@.len() == old(out)@.len() + spans(*node).len(),
        forall|i: int| 0 <= i < old(out)@.len() ==> #[trigger] final(out)@[i] == old(out)@[i],
        forall|i: int|
            old(out)@.len() <= i < final(out)@.len() ==> (#[trigger] final(out)@[i]).span() == spans(
                *node,
            )[i - old(out)@.len()],
    decreases node,
{
    if let Some(node) = node {
        proof {
            lemma_whole(spans(node.left), node.span(), spans(node.right));
        }
        visit_in_order(&node.left, out);
        out.push(RangeEntry { start: node.start, end: node.end, value: &node.value });
        visit_in_order(&node.right, out);
    }
}

impl<T> Default for RangeMap<T> {
    fn default() -> (r: Self)
        ensures
            r.wf(),
            r@ == Map::<u64, (u64, T)>::empty(),
    {
        Self::new()
    }
}

impl<T> RangeMap<T> {
    /// The stored ranges in address order.
    pub closed spec fn spans(&self) -> Seq<Span<T>> {
        spans(self.root)
    }

    /// The stored ranges as a map from start to end and value.
    pub closed spec fn view(&self) -> Map<u64, (u64, T)> {
        span_map(spans(self.root))
    }

    pub closed spec fn wf(&self) -> bool {
        &&& sound(self.root)
        &&& !red(self.root)
        &&& ordered(spans(self.root))
        &&& self.len == spans(self.root).len()
    }

    /// What `validate` looks for: a black root, ranges in order, a balanced
    /// tree and the right count.
    pub closed spec fn consistent(&self) -> bool {
        &&& !red(self.root)
        &&& ordered(spans(self.root))
        &&& balanced(self.root)
        &&& self.len == spans(self.root).len()
    }

    /// The stored ranges are finite in number, not empty, pairwise disjoint,
    /// and listed by address.
    pub proof fn lemma_shape(&self)
        requires
            self.wf(),
        ensures
            self.consistent(),
            disjoint(self@),
            self@.dom().finite(),
            self@.dom().len() == self.spans().len(),
            self@ == span_map(self.spans()),
            ordered(self.spans()),
    {
        lemma_map_shape(self.spans());
        lemma_sound_balanced(self.root);
    }

    pub fn new() -> (r: Self)
        ensures
            r.wf(),
            r@ == Map::<u64, (u64, T)>::empty(),
    {
        let r = Self { root: None, len: 0 };
        assert(r@ =~= Map::<u64, (u64, T)>::empty());
        r
    }

    pub fn len(&self) -> (r: u64)
        requires
            self.wf(),
        ensures
            r == self@.dom().len(),
    {
        proof {
            self.lemma_shape();
        }
        self.len
    }

    pub fn is_empty(&self) -> (r: bool)
        requires
            self.wf(),
        ensures
            r == (self@ == Map::<u64, (u64, T)>::empty()),
    {
        proof {
            self.lemma_shape();
            if self@.dom().len() == 0 {
                assert(self@ =~= Map::<u64, (u64, T)>::empty());
            }
        }
        self.len == 0
    }

    /// Stores `value` under `[start, end)`, unless that range is empty or meets
    /// one that is stored already.
    pub fn insert(&mut self, start: u64, end: u64, value: T) -> (r: Result<(), RangeMapError>)
        requires
            old(self).wf(),
        ensures
            final(self).wf(),
            r == (if start >= end {
                Err::<(), RangeMapError>(RangeMapError::Empty)
            } else if !unoccupied(old(self)@, start, end) {
                Err(RangeMapError::Overlap)
            } else {
                Ok(())
            }),
            r is Err ==> *final(self) == *old(self),
            r is Ok ==> final(self)@ == old(self)@.insert(start, (end, value)),
    {
        if start >= end {
            return Err(RangeMapError::Empty);
        }
        if self.find_overlap(start, end).is_some() {
            return Err(RangeMapError::Overlap);
        }
        let ghost before = self.spans();
        proof {
            lemma_vacant(before);
        }
        let root = self.root.take();
        let mut node = insert_node(root, start, end, value);
        node.color = Color::Black;
        self.root = Some(node);
        proof {
            reveal_with_fuel(sound, 2);
            reveal_with_fuel(leaning, 2);
            lemma_map_insert(before, self.spans(), Span { start, end, value });
            lemma_len_bound(self.spans());
        }
        self.len += 1;
        Ok(())
    }

    /// Takes out the range that begins at `start`.
    pub fn remove(&mut self, start: u64) -> (r: Option<T>)
        requires
            old(self).wf(),
        ensures
            final(self).wf(),
            final(self)@ == old(self)@.remove(start),
            r == (if old(self)@.contains_key(start) {
                Some(old(self)@[start].1)
            } else {
                None
            }),
            r is None ==> *final(self) == *old(self),
    {
        let ghost before = self.spans();
        if self.get_by_start(start).is_none() {
            assert(self@ =~= old(self)@.remove(start));
            return None;
        }
        let ghost i: int = 0;
        proof {
            lemma_span_map(before);
            let j = choose|i: int| 0 <= i < before.len() && (#[trigger] before[i]).start == start;
            i = j;
            lemma_map_remove(before, i);
            assert(self@.contains_pair(before[i].start, (before[i].end, before[i].value)));
            reveal_with_fuel(sound, 2);
            reveal_with_fuel(leaning, 2);
        }
        let mut root = self.root.take().unwrap();
        if !is_red(&root.left) && !is_red(&root.right) {
            root.color = Color::Red;
        }
        let mut removed = None;
        self.root = delete_node(root, start, &mut removed, Ghost(i));
        if let Some(root) = self.root.as_mut() {
            root.color = Color::Black;
        }
        if removed.is_some() {
            self.len -= 1;
        }
        removed
    }

    /// The range that holds `addr`.
    pub fn get(&self, addr: u64) -> (r: Option<RangeEntry<'_, T>>)
        requires
            self.wf(),
        ensures
            match r {
                Some(entry) => {
                    &&& entry.start <= addr < entry.end
                    &&& self@.contains_pair(entry.start, (entry.end, *entry.value))
                },
                None => uncovered(self@, addr),
            },
    {
        let mut current = &self.root;
        proof {
            lemma_vacant(self.spans());
            lemma_span_map(self.spans());
        }
        loop
            invariant
                ordered(spans(self.root)),
                ordered(spans(*current)),
                forall|x: Span<T>|
                    spans(*current).contains(x) ==> #[trigger] spans(self.root).contains(x),
                forall|x: Span<T>| #[trigger]
                    spans(self.root).contains(x) && x.start <= addr < x.end ==> spans(
                        *current,
                    ).contains(x),
            ensures
                current is None,
            decreases *current,
        {
            let node = match current {
                Some(node) => node,
                None => {
                    break;
                },
            };
            proof {
                lemma_in_parts(spans(node.left), node.span(), spans(node.right));
                lemma_parts(spans(node.left), node.span(), spans(node.right), 0, 0);
                assert(spans(*current).contains(node.span()));
            }
            if addr < node.start {
                current = &node.left;
            } else if addr >= node.end {
                current = &node.right;
            } else {
                proof {
                    assert(spans(self.root).contains(node.span()));
                    lemma_span_map(self.spans());
                }
                return Some(RangeEntry { start: node.start, end: node.end, value: &node.value });
            }
        }
        proof {
            assert forall|i: int| 0 <= i < self.spans().len() implies !((
            #[trigger] self.spans()[i]).start <= addr < self.spans()[i].end) by {
                assert(spans(self.root).contains(self.spans()[i]));
            }
        }
        None
    }

    /// The range around `addr`, with its value open to change.
    pub fn get_mut(&mut self, addr: u64) -> (r: Option<(u64, u64, &mut T)>)
        requires
            old(self).wf(),
        ensures
            final(self).wf(),
            match r {
                Some((start, end, value)) => {
                    &&& start <= addr < end
                    &&& old(self)@.contains_pair(start, (end, *value))
                    &&& final(self)@ == old(self)@.insert(start, (end, *final(value)))
                },
                None => uncovered(old(self)@, addr) && *final(self) == *old(self),
            },
    {
        proof {
            lemma_vacant(self.spans());
            lemma_span_map(self.spans());
            lemma_position(self.spans(), addr);
            lemma_map_updates(self.spans());
        }
        covering_mut(&mut self.root, addr)
    }

    /// The range that begins at `start`.
    pub fn get_by_start(&self, start: u64) -> (r: Option<RangeEntry<'_, T>>)
        requires
            self.wf(),
        ensures
            match r {
                Some(entry) => {
                    &&& entry.start == start
                    &&& self@.contains_pair(start, (entry.end, *entry.value))
                },
                None => !self@.contains_key(start),
            },
    {
        let mut current = &self.root;
        proof {
            lemma_span_map(self.spans());
        }
        loop
            invariant
                ordered(spans(self.root)),
                ordered(spans(*current)),
                forall|x: Span<T>|
                    spans(*current).contains(x) ==> #[trigger] spans(self.root).contains(x),
                forall|x: Span<T>| #[trigger]
                    spans(self.root).contains(x) && x.start == start ==> spans(*current).contains(x),
            ensures
                current is None,
            decreases *current,
        {
            let node = match current {
                Some(node) => node,
                None => {
                    break;
                },
            };
            proof {
                lemma_in_parts(spans(node.left), node.span(), spans(node.right));
                lemma_parts(spans(node.left), node.span(), spans(node.right), 0, 0);
                assert(spans(*current).contains(node.span()));
            }
            if start < node.start {
                current = &node.left;
            } else if start > node.start {
                current = &node.right;
            } else {
                proof {
                    assert(spans(self.root).contains(node.span()));
                    lemma_span_map(self.spans());
                }
                return Some(RangeEntry { start: node.start, end: node.end, value: &node.value });
            }
        }
        proof {
            if self@.contains_key(start) {
                let i = choose|i: int|
                    0 <= i < self.spans().len() && (#[trigger] self.spans()[i]).start == start;
                assert(spans(self.root).contains(self.spans()[i]));
            }
        }
        None
    }

    /// Some range that meets `[start, end)`.
    pub fn find_overlap(&self, start: u64, end: u64) -> (r: Option<RangeEntry<'_, T>>)
        requires
            self.wf(),
        ensures
            match r {
                Some(entry) => {
                    &&& start < end
                    &&& entry.start < end && start < entry.end
                    &&& self@.contains_pair(entry.start, (entry.end, *entry.value))
                },
                None => start >= end || unoccupied(self@, start, end),
            },
    {
        if start >= end {
            return None;
        }
        let mut current = &self.root;
        proof {
            lemma_vacant(self.spans());
        }
        loop
            invariant
                start < end,
                ordered(spans(self.root)),
                ordered(spans(*current)),
                forall|x: Span<T>|
                    spans(*current).contains(x) ==> #[trigger] spans(self.root).contains(x),
                forall|x: Span<T>| #[trigger]
                    spans(self.root).contains(x) && x.start < end && start < x.end ==> spans(
                        *current,
                    ).contains(x),
            ensures
                current is None,
            decreases *current,
        {
            let node = match current {
                Some(node) => node,
                None => {
                    break;
                },
            };
            proof {
                lemma_in_parts(spans(node.left), node.span(), spans(node.right));
                lemma_parts(spans(node.left), node.span(), spans(node.right), 0, 0);
                assert(spans(*current).contains(node.span()));
            }
            if end <= node.start {
                current = &node.left;
            } else if start >= node.end {
                current = &node.right;
            } else {
                proof {
                    assert(spans(self.root).contains(node.span()));
                    lemma_span_map(self.spans());
                }
                return Some(RangeEntry { start: node.start, end: node.end, value: &node.value });
            }
        }
        proof {
            assert forall|i: int| 0 <= i < self.spans().len() implies !((
            #[trigger] self.spans()[i]).start < end && start < self.spans()[i].end) by {
                assert(spans(self.root).contains(self.spans()[i]));
            }
        }
        None
    }

    /// All ranges in address order.
    pub fn for_each(&self) -> (r: Vec<RangeEntry<'_, T>>)
        ensures
            r@.len() == self.spans().len(),
            forall|i: int| 0 <= i < r@.len() ==> (#[trigger] r@[i]).span() == self.spans()[i],
    {
        let mut out = Vec::new();
        visit_in_order(&self.root, &mut out);
        out
    }

    /// The lowest aligned address in `[min, max)` with `size` free bytes from
    /// there on, all below `max`.
    pub fn find_gap(&self, size: u64, align: u64, min: u64, max: u64) -> (r: Result<
        Option<u64>,
        RangeMapError,
    >)
        requires
            self.wf(),
        ensures
            match r {
                Err(e) => e == RangeMapError::InvalidAlignment && align == 0,
                Ok(Some(at)) => {
                    &&& align != 0 && size != 0
                    &&& gap_at(self@, size, align, min, max, at)
                    &&& forall|b: u64| #[trigger]
                        gap_at(self@, size, align, min, max, b) ==> at <= b
                },
                Ok(None) => {
                    &&& align != 0
                    &&& size == 0 || forall|b: u64| !#[trigger]
                        gap_at(self@, size, align, min, max, b)
                },
            },
    {
        if align == 0 {
            return Err(RangeMapError::InvalidAlignment);
        }
        if size == 0 || min >= max {
            return Ok(None);
        }
        let ghost s = self.spans();
        let ghost m = self@;
        proof {
            lemma_vacant(s);
        }
        let mut cursor = min;
        let entries = self.for_each();
        let mut i: usize = 0;
        while i < entries.len()
            invariant
                0 < size,
                0 < align,
                min <= cursor,
                min < max,
                i <= entries@.len(),
                ordered(s),
                m == self@,
                forall|start: u64, end: u64| vacant(s, start, end) == #[trigger] unoccupied(m, start, end),
                entries@.len() == s.len(),
                forall|j: int| 0 <= j < entries@.len() ==> (#[trigger] entries@[j]).span() == s[j],
                forall|j: int|
                    0 <= j < i ==> (#[trigger] s[j]).end <= cursor || s[j].start >= max,
                forall|b: u64| #[trigger] gap_at(m, size, align, min, max, b) ==> cursor <= b,
            decreases entries@.len() - i,
        {
            let entry = &entries[i];
            proof {
                assert(entry.span() == s[i as int]);
                lemma_aligned_up(cursor as int, align as int);
            }
            i += 1;
            if entry.end <= min {
                continue;
            }
            let gap_end = if entry.start >= max {
                max
            } else {
                entry.start
            };
            if let Some(candidate) = align_up(cursor, align) {
                if let Some(end) = candidate.checked_add(size) {
                    if end <= gap_end {
                        proof {
                            assert forall|j: int| 0 <= j < s.len() implies !((
                            #[trigger] s[j]).start < end && candidate < s[j].end) by {
                                if j >= i {
                                    assert(s[i - 1].start < s[j].start);
                                }
                            }
                            assert(vacant(s, candidate, end));
                            assert(gap_at(m, size, align, min, max, candidate));
                            assert forall|b: u64| #[trigger]
                                gap_at(m, size, align, min, max, b) implies candidate <= b by {
                                assert(b as int % align as int == 0);
                            }
                        }
                        return Ok(Some(candidate));
                    }
                }
            }
            if entry.start >= max {
                continue;
            }
            proof {
                assert forall|b: u64| #[trigger] gap_at(m, size, align, min, max, b) implies entry.end
                    <= b || entry.end <= cursor by {
                    let end = (b + size) as u64;
                    assert(vacant(s, b, end));
                    assert(!(s[i - 1].start < end && b < s[i - 1].end));
                    assert(b as int % align as int == 0);
                }
            }
            if entry.end > cursor {
                cursor = entry.end;
            }
        }
        proof {
            lemma_aligned_up(cursor as int, align as int);
            assert forall|b: u64| #[trigger] gap_at(m, size, align, min, max, b) implies aligned_up(
                cursor as int,
                align as int,
            ) <= b by {
                assert(b as int % align as int == 0);
            }
        }
        let candidate = match align_up(cursor, align) {
            Some(candidate) => candidate,
            None => {
                return Ok(None);
            },
        };
        match candidate.checked_add(size) {
            Some(end) if end <= max => {
                proof {
                    assert(vacant(s, candidate, end));
                    assert(gap_at(m, size, align, min, max, candidate));
                }
                Ok(Some(candidate))
            },
            _ => Ok(None),
        }
    }

    /// Whether the tree is in order, balanced and rightly counted.
    pub fn validate(&self) -> (r: bool)
        ensures
            r == self.consistent(),
            self.wf() ==> r,
    {
        proof {
            if self.wf() {
                self.lemma_shape();
            }
        }
        let root = match &self.root {
            None => {
                return self.len == 0;
            },
            Some(root) => root,
        };
        if root.color != Color::Black {
            return false;
        }
        let mut count: u64 = 0;
        let mut previous_end: Option<u64> = None;
        let ordered = validate_order(&self.root, &mut previous_end, &mut count);
        if !ordered {
            return false;
        }
        proof {
            lemma_len_bound(self.spans());
        }
        let balanced = black_height(&self.root).is_some();
        ordered && balanced && count == self.len
    }

    /// `insert` with the range given by its length.
    pub fn insert_size(&mut self, start: u64, size: u64, value: T) -> (r: Result<(), RangeMapError>)
        requires
            old(self).wf(),
        ensures
            final(self).wf(),
            r == (if size == 0 {
                Err::<(), RangeMapError>(RangeMapError::Empty)
            } else if start + size > u64::MAX {
                Err(RangeMapError::Overflow)
            } else if !unoccupied(old(self)@, start, (start + size) as u64) {
                Err(RangeMapError::Overlap)
            } else {
                Ok(())
            }),
            r is Err ==> *final(self) == *old(self),
            r is Ok ==> final(self)@ == old(self)@.insert(start, ((start + size) as u64, value)),
    {
        if size == 0 {
            return Err(RangeMapError::Empty);
        }
        match start.checked_add(size) {
            Some(end) => self.insert(start, end, value),
            None => Err(RangeMapError::Overflow),
        }
    }

    /// The range that begins at `start`, with its value open to change.
    pub fn get_by_start_mut(&mut self, start: u64) -> (r: Option<(u64, u64, &mut T)>)
        requires
            old(self).wf(),
        ensures
            final(self).wf(),
            match r {
                Some((at, end, value)) => {
                    &&& at == start
                    &&& old(self)@.contains_pair(start, (end, *value))
                    &&& final(self)@ == old(self)@.insert(start, (end, *final(value)))
                },
                None => !old(self)@.contains_key(start) && *final(self) == *old(self),
            },
    {
        if self.get_by_start(start).is_none() {
            return None;
        }
        proof {
            self.lemma_shape();
        }
        self.get_mut(start)
    }

    /// Takes out the range `[start, end)`, if just that range is stored.
    pub fn remove_exact(&mut self, start: u64, end: u64) -> (r: Result<T, RangeMapError>)
        requires
            old(self).wf(),
        ensures
            final(self).wf(),
            match r {
                Ok(value) => {
                    &&& old(self)@.contains_pair(start, (end, value))
                    &&& final(self)@ == old(self)@.remove(start)
                },
                Err(e) => {
                    &&& *final(self) == *old(self)
                    &&& if old(self)@.contains_key(start) {
                        e == RangeMapError::Mismatch && old(self)@[start].0 != end
                    } else {
                        e == RangeMapError::NotFound
                    }
                },
            },
    {
        match self.get_by_start(start) {
            None => {
                return Err(RangeMapError::NotFound);
            },
            Some(entry) => {
                if entry.end != end {
                    return Err(RangeMapError::Mismatch);
                }
            },
        }
        match self.remove(start) {
            Some(value) => Ok(value),
            None => Err(RangeMapError::NotFound),
        }
    }
}

/// The same ranges, each with a clone of its value.
spec fn mirrors<T: Clone>(a: Seq<Span<T>>, b: Seq<Span<T>>) -> bool {
    &&& a.len() == b.len()
    &&& forall|i: int|
        #![trigger a[i]]
        #![trigger b[i]]
        0 <= i < a.len() ==> a[i].start == b[i].start && a[i].end == b[i].end && cloned(
            a[i].value,
            b[i].value,
        )
}

proof fn lemma_mirrors<T: Clone>(a: Seq<Span<T>>, b: Seq<Span<T>>)
    requires
        ordered(a),
        mirrors(a, b),
    ensures
        ordered(b),
        span_map(a).dom() == span_map(b).dom(),
        forall|k: u64| #[trigger]
            span_map(a).contains_key(k) ==> span_map(a)[k].0 == span_map(b)[k].0 && cloned(
                span_map(a)[k].1,
                span_map(b)[k].1,
            ),
{
    assert(ordered(b));
    lemma_span_map(a);
    lemma_span_map(b);
    assert forall|k: u64| span_map(a).contains_key(k) <==> span_map(b).contains_key(k) by {
        if span_map(a).contains_key(k) {
            let i = choose|i: int| 0 <= i < a.len() && (#[trigger] a[i]).start == k;
            assert(b[i].start == k);
        }
        if span_map(b).contains_key(k) {
            let i = choose|i: int| 0 <= i < b.len() && (#[trigger] b[i]).start == k;
            assert(a[i].start == k);
        }
    }
    assert(span_map(a).dom() =~= span_map(b).dom());
    assert forall|k: u64| #[trigger] span_map(a).contains_key(k) implies span_map(a)[k].0
        == span_map(b)[k].0 && cloned(span_map(a)[k].1, span_map(b)[k].1) by {
        let i = choose|i: int| 0 <= i < a.len() && (#[trigger] a[i]).start == k;
        assert(span_map(a).contains_pair(a[i].start, (a[i].end, a[i].value)));
        assert(span_map(b).contains_pair(b[i].start, (b[i].end, b[i].value)));
    }
}

fn clone_link<T: Clone>(link: &Link<T>) -> (r: Link<T>)
    ensures
        mirrors(spans(*link), spans(r)),
        sound(*link) ==> sound(r),
        height(r) == height(*link),
        red(r) == red(*link),
    decreases link,
{
    match link {
        None => None,
        Some(node) => {
            let left = clone_link(&node.left);
            let right = clone_link(&node.right);
            let value = node.value.clone();
            let twin = Box::new(
                Node { start: node.start, end: node.end, value, color: node.color, left, right },
            );
            proof {
                reveal_with_fuel(sound, 2);
                reveal_with_fuel(leaning, 2);
                lemma_whole(spans(node.left), node.span(), spans(node.right));
                lemma_whole(spans(twin.left), twin.span(), spans(twin.right));
            }
            Some(twin)
        },
    }
}

impl<T: Clone> Clone for RangeMap<T> {
    fn clone(&self) -> (r: Self)
        ensures
            self.wf() ==> {
                &&& r.wf()
                &&& r@.dom() == self@.dom()
                &&& forall|k: u64| #[trigger]
                    self@.contains_key(k) ==> r@[k].0 == self@[k].0 && cloned(self@[k].1, r@[k].1)
            },
    {
        let r = Self { root: clone_link(&self.root), len: self.len };
        proof {
            if self.wf() {
                lemma_mirrors(self.spans(), r.spans());
            }
        }
        r
    }
}

} // verus!
