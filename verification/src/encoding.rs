//! Fixed-width big-endian encodings of amounts, as they enter hash
//! preimages and public instances.

use vstd::prelude::*;

verus! {

/// Width in bytes of one amount inside a hash preimage.
pub const AMOUNT_WIDTH: usize = 16;

/// Width in bytes of one word of a public instance.
pub const WORD_WIDTH: usize = 32;

/// The `width` low-order bytes of `value`, most significant first.
pub open spec fn be_bytes(value: nat, width: nat) -> Seq<u8>
    decreases width,
{
    if width == 0 {
        Seq::empty()
    } else {
        be_bytes(value / 256, (width - 1) as nat).push((value % 256) as u8)
    }
}

/// The concatenation of the 16-byte encodings of `amounts`, in order.
pub open spec fn amounts_bytes(amounts: Seq<nat>) -> Seq<u8>
    decreases amounts.len(),
{
    if amounts.len() == 0 {
        Seq::empty()
    } else {
        amounts_bytes(amounts.drop_last()) + be_bytes(amounts.last(), AMOUNT_WIDTH as nat)
    }
}

/// The mathematical values of a vector of machine amounts.
pub open spec fn amounts(values: Seq<u128>) -> Seq<nat> {
    Seq::new(values.len(), |i: int| values[i] as nat)
}

/// An encoding has as many bytes as its width.
pub proof fn lemma_be_bytes_len(value: nat, width: nat)
    ensures
        be_bytes(value, width).len() == width,
    decreases width,
{
    if width > 0 {
        lemma_be_bytes_len(value / 256, (width - 1) as nat);
    }
}

/// Appends the big-endian encoding of `value` in `width` bytes to `out`.
pub fn push_be_bytes(out: &mut Vec<u8>, value: u128, width: usize)
    ensures
        final(out)@ == old(out)@ + be_bytes(value as nat, width as nat),
{
    let ghost before = out@;
    let mut digits: Vec<u8> = Vec::new();
    let mut rest: u128 = value;
    let mut n: usize = 0;
    // `digits` collects the bytes least significant first.
    while n < width
        invariant
            n <= width,
            digits@.len() == n,
            out@ == before,
            be_bytes(value as nat, width as nat) == be_bytes(rest as nat, (width - n) as nat)
                + digits@.reverse(),
        decreases width - n,
    {
        let low: u8 = (rest % 256) as u8;
        proof {
            let w = (width - n) as nat;
            let head = be_bytes((rest / 256) as nat, (w - 1) as nat);
            assert(be_bytes(rest as nat, w) == head.push(low));
            assert(digits@.push(low).reverse() =~= seq![low] + digits@.reverse());
            assert(head.push(low) + digits@.reverse() =~= head + (seq![low] + digits@.reverse()));
        }
        digits.push(low);
        rest = rest / 256;
        n = n + 1;
    }
    let mut k: usize = width;
    while k > 0
        invariant
            k <= width,
            digits@.len() == width,
            out@ == before + digits@.reverse().subrange(0, width - k),
        decreases k,
    {
        k = k - 1;
        let b: u8 = digits[k];
        proof {
            let r = digits@.reverse();
            assert(r[width - k - 1] == b);
            assert(r.subrange(0, width - k) =~= r.subrange(0, width - k - 1).push(b));
            assert(before + r.subrange(0, width - k - 1).push(b) =~= (before + r.subrange(
                0,
                width - k - 1,
            )).push(b));
        }
        out.push(b);
    }
    proof {
        let r = digits@.reverse();
        assert(r.subrange(0, width as int) =~= r);
        assert(be_bytes(rest as nat, 0) =~= Seq::<u8>::empty());
        assert(Seq::<u8>::empty() + r =~= r);
    }
}

/// Appends the 16-byte encodings of all of `values`, in order, to `out`.
pub fn push_amounts(out: &mut Vec<u8>, values: &Vec<u128>)
    ensures
        final(out)@ == old(out)@ + amounts_bytes(amounts(values@)),
{
    let ghost before = out@;
    let mut i: usize = 0;
    proof {
        assert(amounts(values@).subrange(0, 0) =~= Seq::<nat>::empty());
        assert(before + Seq::<u8>::empty() =~= before);
    }
    while i < values.len()
        invariant
            i <= values.len(),
            out@ == before + amounts_bytes(amounts(values@).subrange(0, i as int)),
        decreases values.len() - i,
    {
        proof {
            let all = amounts(values@);
            let next = all.subrange(0, i + 1);
            assert(next.drop_last() =~= all.subrange(0, i as int));
            assert(next.last() == values@[i as int] as nat);
            assert(before + (amounts_bytes(next.drop_last()) + be_bytes(
                next.last(),
                AMOUNT_WIDTH as nat,
            )) =~= (before + amounts_bytes(next.drop_last())) + be_bytes(
                next.last(),
                AMOUNT_WIDTH as nat,
            ));
        }
        push_be_bytes(out, values[i], AMOUNT_WIDTH);
        i = i + 1;
    }
    proof {
        assert(amounts(values@).subrange(0, values@.len() as int) =~= amounts(values@));
    }
}

/// Machine amounts are equal exactly when their mathematical values are.
pub proof fn lemma_amounts_injective(a: Seq<u128>, b: Seq<u128>)
    ensures
        amounts(a) == amounts(b) <==> a == b,
{
    if amounts(a) == amounts(b) {
        assert(a.len() == amounts(a).len());
        assert(b.len() == amounts(b).len());
        assert forall|i: int| 0 <= i < a.len() implies a[i] == b[i] by {
            assert(amounts(a)[i] == a[i] as nat);
            assert(amounts(b)[i] == b[i] as nat);
        }
        assert(a =~= b);
    }
}

/// Whether two vectors hold the same bytes.
pub fn bytes_equal(a: &Vec<u8>, b: &Vec<u8>) -> (equal: bool)
    ensures
        equal == (a@ == b@),
{
    if a.len() != b.len() {
        return false;
    }
    let mut i: usize = 0;
    while i < a.len()
        invariant
            i <= a@.len(),
            a@.len() == b@.len(),
            forall|j: int| 0 <= j < i ==> a@[j] == b@[j],
        decreases a@.len() - i,
    {
        if a[i] != b[i] {
            return false;
        }
        i = i + 1;
    }
    proof {
        assert(a@ =~= b@);
    }
    true
}

/// Whether two vectors hold the same amounts.
pub fn amounts_equal(a: &Vec<u128>, b: &Vec<u128>) -> (equal: bool)
    ensures
        equal == (a@ == b@),
        equal == (amounts(a@) == amounts(b@)),
{
    proof {
        lemma_amounts_injective(a@, b@);
    }
    if a.len() != b.len() {
        return false;
    }
    let mut i: usize = 0;
    while i < a.len()
        invariant
            i <= a@.len(),
            a@.len() == b@.len(),
            forall|j: int| 0 <= j < i ==> a@[j] == b@[j],
        decreases a@.len() - i,
    {
        if a[i] != b[i] {
            proof {
                lemma_amounts_injective(a@, b@);
            }
            return false;
        }
        i = i + 1;
    }
    proof {
        assert(a@ =~= b@);
    }
    true
}

/// The words of a public instance: the digest first, then every value as a
/// word of 32 bytes, in order.
pub open spec fn instance_words(digest: Seq<u8>, values: Seq<u128>) -> Seq<Seq<u8>> {
    Seq::new(
        1 + values.len(),
        |i: int|
            if i == 0 {
                digest
            } else {
                be_bytes(values[i - 1] as nat, WORD_WIDTH as nat)
            },
    )
}

/// Lays out a public instance: the digest first, then every value as a
/// word of 32 bytes, in order.
pub fn encode_instance(digest: &Vec<u8>, values: &Vec<u128>) -> (words: Vec<Vec<u8>>)
    ensures
        words.deep_view() == instance_words(digest@, values@),
        forall|i: int| 1 <= i < words@.len() ==> (#[trigger] words@[i])@.len() == WORD_WIDTH,
{
    let mut words: Vec<Vec<u8>> = Vec::new();
    let mut first: Vec<u8> = Vec::new();
    first.extend_from_slice(digest.as_slice());
    proof {
        assert(first@ =~= digest@);
    }
    words.push(first);
    let mut i: usize = 0;
    while i < values.len()
        invariant
            i <= values@.len(),
            words@.len() == i + 1,
            words@[0]@ == digest@,
            forall|j: int|
                1 <= j <= i ==> (#[trigger] words@[j])@ == be_bytes(
                    values@[j - 1] as nat,
                    WORD_WIDTH as nat,
                ),
            forall|j: int| 1 <= j <= i ==> (#[trigger] words@[j])@.len() == WORD_WIDTH,
        decreases values@.len() - i,
    {
        let mut word: Vec<u8> = Vec::new();
        push_be_bytes(&mut word, values[i], WORD_WIDTH);
        proof {
            assert(word@ =~= be_bytes(values@[i as int] as nat, WORD_WIDTH as nat));
            lemma_be_bytes_len(values@[i as int] as nat, WORD_WIDTH as nat);
        }
        words.push(word);
        i = i + 1;
    }
    proof {
        assert forall|j: int| 0 <= j < words@.len() implies words.deep_view()[j]
            == instance_words(digest@, values@)[j] by {
            assert(words@[j].deep_view() =~= words@[j]@);
        }
        assert(words.deep_view() =~= instance_words(digest@, values@));
    }
    words
}

} // verus!
