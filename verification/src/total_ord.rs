//! Total orders on key types.
//!
//! A key stands for its view: two keys of the same view are the same key to a
//! map, and neither precedes the other.

use vstd::prelude::*;
use vstd::std_specs::iter::IteratorSpec;

verus! {

/// The outcome of comparing two keys.
#[derive(Clone, Copy, Debug, PartialEq, Eq, Structural)]
pub enum Order {
    Less,
    Equal,
    Greater,
}

/// A strict total order on the views of a type: of two keys exactly one
/// precedes the other, unless they have the same view.
pub trait TotalOrd: Sized + View {
    /// `self` comes strictly before `other`.
    spec fn precedes(&self, other: &Self) -> bool;

    proof fn lemma_irreflexive(a: &Self, b: &Self)
        requires
            a@ == b@,
        ensures
            !a.precedes(b),
    ;

    proof fn lemma_transitive(a: &Self, b: &Self, c: &Self)
        requires
            a.precedes(b),
            b.precedes(c),
        ensures
            a.precedes(c),
    ;

    proof fn lemma_connected(a: &Self, b: &Self)
        ensures
            a.precedes(b) || b.precedes(a) || a@ == b@,
    ;

    fn compare(&self, other: &Self) -> (o: Order)
        ensures
            o == (if self.precedes(other) {
                Order::Less
            } else if other.precedes(self) {
                Order::Greater
            } else {
                Order::Equal
            }),
    ;
}

/// How `a` stands to `b` in the order of their type.
pub open spec fn order_of<K: TotalOrd>(a: &K, b: &K) -> Order {
    if a.precedes(b) {
        Order::Less
    } else if b.precedes(a) {
        Order::Greater
    } else {
        Order::Equal
    }
}

/// Two keys compare as equal exactly when they have the same view.
pub proof fn lemma_equal_iff_same<K: TotalOrd>(a: &K, b: &K)
    ensures
        order_of(a, b) == Order::Equal <==> a@ == b@,
{
    K::lemma_connected(a, b);
    if a@ == b@ {
        K::lemma_irreflexive(a, b);
        K::lemma_irreflexive(b, a);
    }
}

/// No key both precedes and follows another.
pub proof fn lemma_asymmetric<K: TotalOrd>(a: &K, b: &K)
    ensures
        !(a.precedes(b) && b.precedes(a)),
{
    if a.precedes(b) && b.precedes(a) {
        K::lemma_transitive(a, b, a);
        K::lemma_irreflexive(a, a);
    }
}

impl TotalOrd for u8 {
    open spec fn precedes(&self, other: &Self) -> bool {
        *self < *other
    }

    proof fn lemma_irreflexive(a: &Self, b: &Self) {
    }

    proof fn lemma_transitive(a: &Self, b: &Self, c: &Self) {
    }

    proof fn lemma_connected(a: &Self, b: &Self) {
    }

    fn compare(&self, other: &Self) -> (o: Order) {
        if *self < *other {
            Order::Less
        } else if *other < *self {
            Order::Greater
        } else {
            Order::Equal
        }
    }
}

impl TotalOrd for u16 {
    open spec fn precedes(&self, other: &Self) -> bool {
        *self < *other
    }

    proof fn lemma_irreflexive(a: &Self, b: &Self) {
    }

    proof fn lemma_transitive(a: &Self, b: &Self, c: &Self) {
    }

    proof fn lemma_connected(a: &Self, b: &Self) {
    }

    fn compare(&self, other: &Self) -> (o: Order) {
        if *self < *other {
            Order::Less
        } else if *other < *self {
            Order::Greater
        } else {
            Order::Equal
        }
    }
}

impl TotalOrd for u32 {
    open spec fn precedes(&self, other: &Self) -> bool {
        *self < *other
    }

    proof fn lemma_irreflexive(a: &Self, b: &Self) {
    }

    proof fn lemma_transitive(a: &Self, b: &Self, c: &Self) {
    }

    proof fn lemma_connected(a: &Self, b: &Self) {
    }

    fn compare(&self, other: &Self) -> (o: Order) {
        if *self < *other {
            Order::Less
        } else if *other < *self {
            Order::Greater
        } else {
            Order::Equal
        }
    }
}

impl TotalOrd for u64 {
    open spec fn precedes(&self, other: &Self) -> bool {
        *self < *other
    }

    proof fn lemma_irreflexive(a: &Self, b: &Self) {
    }

    proof fn lemma_transitive(a: &Self, b: &Self, c: &Self) {
    }

    proof fn lemma_connected(a: &Self, b: &Self) {
    }

    fn compare(&self, other: &Self) -> (o: Order) {
        if *self < *other {
            Order::Less
        } else if *other < *self {
            Order::Greater
        } else {
            Order::Equal
        }
    }
}

impl TotalOrd for usize {
    open spec fn precedes(&self, other: &Self) -> bool {
        *self < *other
    }

    proof fn lemma_irreflexive(a: &Self, b: &Self) {
    }

    proof fn lemma_transitive(a: &Self, b: &Self, c: &Self) {
    }

    proof fn lemma_connected(a: &Self, b: &Self) {
    }

    fn compare(&self, other: &Self) -> (o: Order) {
        if *self < *other {
            Order::Less
        } else if *other < *self {
            Order::Greater
        } else {
            Order::Equal
        }
    }
}

impl TotalOrd for i8 {
    open spec fn precedes(&self, other: &Self) -> bool {
        *self < *other
    }

    proof fn lemma_irreflexive(a: &Self, b: &Self) {
    }

    proof fn lemma_transitive(a: &Self, b: &Self, c: &Self) {
    }

    proof fn lemma_connected(a: &Self, b: &Self) {
    }

    fn compare(&self, other: &Self) -> (o: Order) {
        if *self < *other {
            Order::Less
        } else if *other < *self {
            Order::Greater
        } else {
            Order::Equal
        }
    }
}

impl TotalOrd for i16 {
    open spec fn precedes(&self, other: &Self) -> bool {
        *self < *other
    }

    proof fn lemma_irreflexive(a: &Self, b: &Self) {
    }

    proof fn lemma_transitive(a: &Self, b: &Self, c: &Self) {
    }

    proof fn lemma_connected(a: &Self, b: &Self) {
    }

    fn compare(&self, other: &Self) -> (o: Order) {
        if *self < *other {
            Order::Less
        } else if *other < *self {
            Order::Greater
        } else {
            Order::Equal
        }
    }
}

impl TotalOrd for i32 {
    open spec fn precedes(&self, other: &Self) -> bool {
        *self < *other
    }

    proof fn lemma_irreflexive(a: &Self, b: &Self) {
    }

    proof fn lemma_transitive(a: &Self, b: &Self, c: &Self) {
    }

    proof fn lemma_connected(a: &Self, b: &Self) {
    }

    fn compare(&self, other: &Self) -> (o: Order) {
        if *self < *other {
            Order::Less
        } else if *other < *self {
            Order::Greater
        } else {
            Order::Equal
        }
    }
}

impl TotalOrd for i64 {
    open spec fn precedes(&self, other: &Self) -> bool {
        *self < *other
    }

    proof fn lemma_irreflexive(a: &Self, b: &Self) {
    }

    proof fn lemma_transitive(a: &Self, b: &Self, c: &Self) {
    }

    proof fn lemma_connected(a: &Self, b: &Self) {
    }

    fn compare(&self, other: &Self) -> (o: Order) {
        if *self < *other {
            Order::Less
        } else if *other < *self {
            Order::Greater
        } else {
            Order::Equal
        }
    }
}

impl TotalOrd for isize {
    open spec fn precedes(&self, other: &Self) -> bool {
        *self < *other
    }

    proof fn lemma_irreflexive(a: &Self, b: &Self) {
    }

    proof fn lemma_transitive(a: &Self, b: &Self, c: &Self) {
    }

    proof fn lemma_connected(a: &Self, b: &Self) {
    }

    fn compare(&self, other: &Self) -> (o: Order) {
        if *self < *other {
            Order::Less
        } else if *other < *self {
            Order::Greater
        } else {
            Order::Equal
        }
    }
}

impl TotalOrd for char {
    open spec fn precedes(&self, other: &Self) -> bool {
        *self < *other
    }

    proof fn lemma_irreflexive(a: &Self, b: &Self) {
    }

    proof fn lemma_transitive(a: &Self, b: &Self, c: &Self) {
    }

    proof fn lemma_connected(a: &Self, b: &Self) {
    }

    fn compare(&self, other: &Self) -> (o: Order) {
        if *self < *other {
            Order::Less
        } else if *other < *self {
            Order::Greater
        } else {
            Order::Equal
        }
    }
}

/// `a` comes before `b` when the two are compared character by character from
/// position `i` on, and a text that runs out comes first.
pub open spec fn text_precedes(a: Seq<char>, b: Seq<char>, i: int) -> bool
    decreases a.len() - i,
{
    if i < 0 || i >= a.len() || i >= b.len() {
        a.len() < b.len()
    } else if a[i] < b[i] {
        true
    } else if b[i] < a[i] {
        false
    } else {
        text_precedes(a, b, i + 1)
    }
}

/// A text does not come before itself.
pub proof fn lemma_text_irreflexive(a: Seq<char>, i: int)
    ensures
        !text_precedes(a, a, i),
    decreases a.len() - i,
{
    if 0 <= i < a.len() {
        lemma_text_irreflexive(a, i + 1);
    }
}

/// What comes before a text that comes before a third comes before the third.
pub proof fn lemma_text_transitive(a: Seq<char>, b: Seq<char>, c: Seq<char>, i: int)
    requires
        text_precedes(a, b, i),
        text_precedes(b, c, i),
    ensures
        text_precedes(a, c, i),
    decreases a.len() - i,
{
    if 0 <= i < a.len() && i < b.len() && i < c.len() {
        if a[i] == b[i] && b[i] == c[i] {
            lemma_text_transitive(a, b, c, i + 1);
        }
    }
}

/// Of two texts that agree before position `i`, one comes before the other,
/// or they are the same text.
pub proof fn lemma_text_connected(a: Seq<char>, b: Seq<char>, i: int)
    requires
        0 <= i,
        forall|j: int| 0 <= j < i && j < a.len() && j < b.len() ==> a[j] == b[j],
    ensures
        text_precedes(a, b, i) || text_precedes(b, a, i) || a == b,
    decreases a.len() - i,
{
    if i < a.len() && i < b.len() {
        if a[i] == b[i] {
            lemma_text_connected(a, b, i + 1);
        }
    } else if a.len() == b.len() {
        assert(a =~= b);
    }
}

/// How the text `a` stands to the text `b`, character by character.
pub fn compare_text(a: &str, b: &str) -> (o: Order)
    ensures
        o == (if text_precedes(a@, b@, 0) {
            Order::Less
        } else if text_precedes(b@, a@, 0) {
            Order::Greater
        } else {
            Order::Equal
        }),
{
    broadcast use {vstd::string::axiom_spec_iter, vstd::string::next_postcondition};

    let mut xs = a.chars();
    let mut ys = b.chars();
    let ghost mut i: int = 0;
    loop
        invariant
            0 <= i <= a@.len(),
            i <= b@.len(),
            xs.obeys_prophetic_iter_laws(),
            ys.obeys_prophetic_iter_laws(),
            xs.remaining() == a@.skip(i),
            ys.remaining() == b@.skip(i),
            text_precedes(a@, b@, 0) == text_precedes(a@, b@, i),
            text_precedes(b@, a@, 0) == text_precedes(b@, a@, i),
        decreases a@.len() - i,
    {
        let x = xs.next();
        let y = ys.next();
        proof {
            if i < a@.len() {
                assert(a@.skip(i)[0] == a@[i]);
                assert(a@.skip(i).drop_first() =~= a@.skip(i + 1));
            }
            if i < b@.len() {
                assert(b@.skip(i)[0] == b@[i]);
                assert(b@.skip(i).drop_first() =~= b@.skip(i + 1));
            }
        }
        match (x, y) {
            (None, None) => {
                return Order::Equal;
            },
            (None, Some(_)) => {
                return Order::Less;
            },
            (Some(_), None) => {
                return Order::Greater;
            },
            (Some(c), Some(d)) => {
                if c < d {
                    return Order::Less;
                }
                if d < c {
                    return Order::Greater;
                }
            },
        }
        proof {
            i = i + 1;
        }
    }
}

impl TotalOrd for String {
    open spec fn precedes(&self, other: &Self) -> bool {
        text_precedes(self@, other@, 0)
    }

    proof fn lemma_irreflexive(a: &Self, b: &Self) {
        lemma_text_irreflexive(a@, 0);
    }

    proof fn lemma_transitive(a: &Self, b: &Self, c: &Self) {
        lemma_text_transitive(a@, b@, c@, 0);
    }

    proof fn lemma_connected(a: &Self, b: &Self) {
        lemma_text_connected(a@, b@, 0);
    }

    fn compare(&self, other: &Self) -> (o: Order) {
        compare_text(self.as_str(), other.as_str())
    }
}

} // verus!
