//! How two values stand to each other: less, equal or greater.

use vstd::prelude::*;

verus! {

/// The outcome of comparing two values.
#[derive(Clone, Copy, Debug, PartialEq, Eq, Structural)]
pub enum Order {
    /// The left value comes first.
    Less,
    /// The two values are equal.
    Equal,
    /// The left value comes last.
    Greater,
}

/// How the integer `a` stands to `b`.
pub open spec fn int_order(a: int, b: int) -> Order {
    if a < b {
        Order::Less
    } else if a == b {
        Order::Equal
    } else {
        Order::Greater
    }
}

/// The order with its two sides exchanged.
pub open spec fn reversed(o: Order) -> Order {
    match o {
        Order::Less => Order::Greater,
        Order::Equal => Order::Equal,
        Order::Greater => Order::Less,
    }
}

/// Lexicographic order of two character sequences, which is the order of
/// their UTF-8 encodings byte by byte: the first differing character
/// decides, and a proper prefix comes first.
pub open spec fn char_seq_order(a: Seq<char>, b: Seq<char>) -> Order
    decreases a.len(),
{
    if a.len() == 0 {
        if b.len() == 0 {
            Order::Equal
        } else {
            Order::Less
        }
    } else if b.len() == 0 {
        Order::Greater
    } else if a[0] < b[0] {
        Order::Less
    } else if a[0] > b[0] {
        Order::Greater
    } else {
        char_seq_order(a.drop_first(), b.drop_first())
    }
}

/// Lexicographic order of two byte sequences: the first differing byte
/// decides, and a proper prefix comes first.
pub open spec fn byte_seq_order(a: Seq<u8>, b: Seq<u8>) -> Order
    decreases a.len(),
{
    if a.len() == 0 {
        if b.len() == 0 {
            Order::Equal
        } else {
            Order::Less
        }
    } else if b.len() == 0 {
        Order::Greater
    } else if a[0] < b[0] {
        Order::Less
    } else if a[0] > b[0] {
        Order::Greater
    } else {
        byte_seq_order(a.drop_first(), b.drop_first())
    }
}

/// Exchanging the sides of a lexicographic comparison reverses it.
pub proof fn lemma_char_seq_order_reverses(a: Seq<char>, b: Seq<char>)
    ensures
        char_seq_order(b, a) == reversed(char_seq_order(a, b)),
    decreases a.len(),
{
    if a.len() > 0 && b.len() > 0 && a[0] == b[0] {
        lemma_char_seq_order_reverses(a.drop_first(), b.drop_first());
    }
}

/// Exchanging the sides of a lexicographic comparison reverses it.
pub proof fn lemma_byte_seq_order_reverses(a: Seq<u8>, b: Seq<u8>)
    ensures
        byte_seq_order(b, a) == reversed(byte_seq_order(a, b)),
    decreases a.len(),
{
    if a.len() > 0 && b.len() > 0 && a[0] == b[0] {
        lemma_byte_seq_order_reverses(a.drop_first(), b.drop_first());
    }
}

/// Lexicographic comparison of two character sequences.
pub fn compare_chars(a: &Vec<char>, b: &Vec<char>) -> (r: Order)
    ensures
        r == char_seq_order(a@, b@),
{
    let mut i: usize = 0;
    proof {
        assert(a@.skip(0) =~= a@);
        assert(b@.skip(0) =~= b@);
    }
    while i < a.len() && i < b.len()
        invariant
            0 <= i <= a.len(),
            i <= b.len(),
            char_seq_order(a@, b@) == char_seq_order(a@.skip(i as int), b@.skip(i as int)),
        decreases a.len() - i,
    {
        let x = a[i];
        let y = b[i];
        proof {
            assert(a@.skip(i as int)[0] == x);
            assert(b@.skip(i as int)[0] == y);
        }
        if x < y {
            return Order::Less;
        }
        if x > y {
            return Order::Greater;
        }
        proof {
            assert(a@.skip(i as int).drop_first() =~= a@.skip(i + 1));
            assert(b@.skip(i as int).drop_first() =~= b@.skip(i + 1));
        }
        i = i + 1;
    }
    if i < b.len() {
        Order::Less
    } else if i < a.len() {
        Order::Greater
    } else {
        Order::Equal
    }
}

/// Lexicographic comparison of two byte sequences.
pub fn compare_bytes(a: &Vec<u8>, b: &Vec<u8>) -> (r: Order)
    ensures
        r == byte_seq_order(a@, b@),
{
    let mut i: usize = 0;
    proof {
        assert(a@.skip(0) =~= a@);
        assert(b@.skip(0) =~= b@);
    }
    while i < a.len() && i < b.len()
        invariant
            0 <= i <= a.len(),
            i <= b.len(),
            byte_seq_order(a@, b@) == byte_seq_order(a@.skip(i as int), b@.skip(i as int)),
        decreases a.len() - i,
    {
        let x = a[i];
        let y = b[i];
        proof {
            assert(a@.skip(i as int)[0] == x);
            assert(b@.skip(i as int)[0] == y);
        }
        if x < y {
            return Order::Less;
        }
        if x > y {
            return Order::Greater;
        }
        proof {
            assert(a@.skip(i as int).drop_first() =~= a@.skip(i + 1));
            assert(b@.skip(i as int).drop_first() =~= b@.skip(i + 1));
        }
        i = i + 1;
    }
    if i < b.len() {
        Order::Less
    } else if i < a.len() {
        Order::Greater
    } else {
        Order::Equal
    }
}

} // verus!
