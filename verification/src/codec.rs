//! The on-disk page encoding: every non-null slot of a page becomes eight
//! big-endian bytes, in write order, and null slots are omitted from the
//! byte stream. The omission means the encoding is not position-stable for
//! pages that ever held nulls; decoding such a stream yields the non-null
//! values packed together. For null-free pages the round trip is exact.

use vstd::prelude::*;
use crate::page::{PAGE_SIZE, Page};

verus! {

/// The eight big-endian bytes of one 64-bit value.
pub open spec fn spec_i64_be_bytes(v: i64) -> Seq<u8> {
    let x = v as u64;
    seq![
        (x >> 56) as u8,
        (x >> 48) as u8,
        (x >> 40) as u8,
        (x >> 32) as u8,
        (x >> 24) as u8,
        (x >> 16) as u8,
        (x >> 8) as u8,
        x as u8,
    ]
}

/// The 64-bit value eight big-endian bytes encode.
pub open spec fn spec_i64_from_be_bytes(b: Seq<u8>) -> i64 {
    ((b[0] as u64) << 56 | (b[1] as u64) << 48 | (b[2] as u64) << 40 | (b[3] as u64) << 32 | (
    b[4] as u64) << 24 | (b[5] as u64) << 16 | (b[6] as u64) << 8 | (b[7] as u64)) as i64
}

/// Encoding then decoding a value gives the value back.
pub proof fn lemma_i64_be_round_trip(v: i64)
    ensures
        spec_i64_from_be_bytes(spec_i64_be_bytes(v)) == v,
{
    let x = v as u64;
    assert((((x >> 56) as u8) as u64) << 56 | (((x >> 48) as u8) as u64) << 48 | (((x >> 40) as u8)
        as u64) << 40 | (((x >> 32) as u8) as u64) << 32 | (((x >> 24) as u8) as u64) << 24 | (((x
        >> 16) as u8) as u64) << 16 | (((x >> 8) as u8) as u64) << 8 | ((x as u8) as u64) == x)
        by (bit_vector);
    assert(((v as u64) as i64) == v) by (bit_vector);
}

/// The byte stream of a page's slots: non-null values in write order, null
/// slots omitted.
pub open spec fn spec_page_bytes(s: Seq<Option<i64>>) -> Seq<u8>
    decreases s.len(),
{
    if s.len() == 0 {
        Seq::empty()
    } else {
        (match s[0] {
            Some(v) => spec_i64_be_bytes(v),
            None => Seq::empty(),
        }) + spec_page_bytes(s.skip(1))
    }
}

/// The slots a byte stream decodes to: one non-null slot per eight bytes.
pub open spec fn spec_bytes_page(b: Seq<u8>) -> Seq<Option<i64>>
    decreases b.len(),
{
    if b.len() < 8 {
        Seq::empty()
    } else {
        seq![Some(spec_i64_from_be_bytes(b.take(8)))] + spec_bytes_page(b.skip(8))
    }
}

/// Appends the eight big-endian bytes of one value.
fn push_be_bytes(out: &mut Vec<u8>, v: i64)
    ensures
        final(out)@ == old(out)@ + spec_i64_be_bytes(v),
{
    let x = v as u64;
    out.push((x >> 56) as u8);
    out.push((x >> 48) as u8);
    out.push((x >> 40) as u8);
    out.push((x >> 32) as u8);
    out.push((x >> 24) as u8);
    out.push((x >> 16) as u8);
    out.push((x >> 8) as u8);
    out.push(x as u8);
    proof {
        assert(out@ =~= old(out)@ + spec_i64_be_bytes(v));
    }
}


/// Serializes raw page slots: each non-null slot contributes eight
/// big-endian bytes, and null slots are skipped.
#[verifier::loop_isolation(false)]
pub fn values_to_bytes(slots: &Vec<Option<i64>>) -> (r: Vec<u8>)
    ensures
        r@ == spec_page_bytes(slots@),
{
    let mut out: Vec<u8> = Vec::new();
    let mut i: usize = 0;
    while i < slots.len()
        invariant
            i <= slots@.len(),
            out@ == spec_page_bytes(slots@.take(i as int)),
        decreases slots@.len() - i,
    {
        proof {
            lemma_page_bytes_take_step(slots@, i as int);
        }
        match slots[i] {
            Some(v) => {
                push_be_bytes(&mut out, v);
            },
            None => {},
        }
        i = i + 1;
    }
    proof {
        assert(slots@.take(slots@.len() as int) =~= slots@);
    }
    out
}

/// Serializes a page for its on-disk file: each non-null slot contributes
/// eight big-endian bytes, and null slots are skipped.
#[verifier::loop_isolation(false)]
pub fn page_to_bytes(page: &Page) -> (r: Vec<u8>)
    ensures
        r@ == spec_page_bytes(page@),
{
    let mut slots: Vec<Option<i64>> = Vec::new();
    let mut i: usize = 0;
    let n = page.len();
    while i < n
        invariant
            i <= page@.len(),
            n == page@.len(),
            slots@ == page@.take(i as int),
        decreases n - i,
    {
        let cell = match page.read(i) {
            Ok(c) => c,
            Err(_) => {
                proof {
                    assert(false);
                }
                None
            },
        };
        slots.push(cell);
        proof {
            assert(slots@ =~= page@.take(i as int + 1));
        }
        i = i + 1;
    }
    proof {
        assert(slots@ =~= page@);
    }
    values_to_bytes(&slots)
}

/// Extending the encoded prefix by one slot appends that slot's bytes.
proof fn lemma_page_bytes_take_step(s: Seq<Option<i64>>, i: int)
    requires
        0 <= i < s.len(),
    ensures
        spec_page_bytes(s.take(i + 1)) == spec_page_bytes(s.take(i)) + (match s[i] {
            Some(v) => spec_i64_be_bytes(v),
            None => Seq::<u8>::empty(),
        }),
    decreases i,
{
    if i == 0 {
        assert(s.take(0) =~= Seq::<Option<i64>>::empty());
        assert(s.take(1)[0] == s[0]);
        assert(s.take(1).skip(1) =~= Seq::<Option<i64>>::empty());
        assert(spec_page_bytes(s.take(1).skip(1)) =~= Seq::<u8>::empty());
        assert(spec_page_bytes(s.take(0)) =~= Seq::<u8>::empty());
        match s[0] {
            Some(v) => {
                assert(spec_page_bytes(s.take(1)) =~= spec_page_bytes(s.take(0))
                    + spec_i64_be_bytes(v));
            },
            None => {
                assert(spec_page_bytes(s.take(1)) =~= spec_page_bytes(s.take(0))
                    + Seq::<u8>::empty());
            },
        }
    } else {
        lemma_page_bytes_take_step(s.skip(1), i - 1);
        assert(s.take(i + 1).skip(1) =~= s.skip(1).take(i));
        assert(s.take(i).skip(1) =~= s.skip(1).take(i - 1));
        assert(s.skip(1)[i - 1] == s[i]);
        assert(spec_page_bytes(s.take(i + 1)) =~= (match s.take(i + 1)[0] {
            Some(v) => spec_i64_be_bytes(v),
            None => Seq::<u8>::empty(),
        }) + spec_page_bytes(s.skip(1).take(i)));
        assert(spec_page_bytes(s.take(i)) =~= (match s[0] {
            Some(v) => spec_i64_be_bytes(v),
            None => Seq::<u8>::empty(),
        }) + spec_page_bytes(s.skip(1).take(i - 1)));
        assert(spec_page_bytes(s.take(i + 1)) =~= spec_page_bytes(s.take(i)) + (match s[i] {
            Some(v) => spec_i64_be_bytes(v),
            None => Seq::<u8>::empty(),
        }));
    }
}

/// Rebuilds a page from its on-disk byte stream: each group of eight bytes
/// becomes one non-null slot; a trailing partial group is discarded.
#[verifier::loop_isolation(false)]
pub fn page_from_bytes(bytes: &Vec<u8>) -> (p: Page)
    requires
        bytes@.len() <= 8 * PAGE_SIZE,
    ensures
        p@ == spec_bytes_page(bytes@),
        p.spec_nullable(),
    {
    let mut p = Page::default();
    let mut i: usize = 0;
    while i + 8 <= bytes.len()
        invariant
            i % 8 == 0,
            i <= bytes@.len(),
            bytes@.len() <= 8 * PAGE_SIZE,
            p@ == spec_bytes_page(bytes@.take(i as int)),
            p@.len() == i / 8,
            p.spec_nullable(),
        decreases bytes@.len() - i,
    {
        let v = ((bytes[i] as u64) << 56 | (bytes[i + 1] as u64) << 48 | (bytes[i + 2] as u64)
            << 40 | (bytes[i + 3] as u64) << 32 | (bytes[i + 4] as u64) << 24 | (bytes[i + 5]
            as u64) << 16 | (bytes[i + 6] as u64) << 8 | (bytes[i + 7] as u64)) as i64;
        proof {
            lemma_bytes_page_take_step(bytes@, i as int);
            assert(v == spec_i64_from_be_bytes(bytes@.subrange(i as int, i as int + 8)));
            vstd::arithmetic::div_mod::lemma_fundamental_div_mod_converse(
                i as int + 8,
                8,
                i as int / 8 + 1,
                0,
            );
            vstd::arithmetic::div_mod::lemma_fundamental_div_mod_converse(
                i as int,
                8,
                i as int / 8,
                0,
            );
        }
        let res = p.write(Some(v));
        proof {
            assert(res is Ok);
        }
        i = i + 8;
    }
    proof {
        lemma_bytes_page_stops(bytes@, i as int);
    }
    p
}

/// Extending the decoded prefix by one whole group appends one slot.
proof fn lemma_bytes_page_take_step(b: Seq<u8>, i: int)
    requires
        0 <= i,
        i % 8 == 0,
        i + 8 <= b.len(),
    ensures
        spec_bytes_page(b.take(i + 8)) == spec_bytes_page(b.take(i)) + seq![
            Some(spec_i64_from_be_bytes(b.subrange(i, i + 8))),
        ],
    decreases i,
{
    if i == 0 {
        assert(b.take(0) =~= Seq::<u8>::empty());
        assert(b.take(8).take(8) =~= b.subrange(0, 8));
        assert(b.take(8).skip(8) =~= Seq::<u8>::empty());
        assert(spec_bytes_page(b.take(8)) =~= Seq::<Option<i64>>::empty() + seq![
            Some(spec_i64_from_be_bytes(b.subrange(0, 8))),
        ]);
    } else {
        lemma_bytes_page_take_step(b.skip(8), i - 8);
        assert(b.take(i + 8).take(8) =~= b.take(i).take(8));
        assert(b.take(i + 8).skip(8) =~= b.skip(8).take(i));
        assert(b.take(i).skip(8) =~= b.skip(8).take(i - 8));
        assert(b.skip(8).subrange(i - 8, i) =~= b.subrange(i, i + 8));
        assert(spec_i64_from_be_bytes(b.take(i + 8).take(8)) == spec_i64_from_be_bytes(
            b.take(i).take(8),
        ));
        assert(spec_bytes_page(b.take(i + 8)) =~= spec_bytes_page(b.take(i)) + seq![
            Some(spec_i64_from_be_bytes(b.subrange(i, i + 8))),
        ]);
    }
}

/// Decoding stops at the last whole group.
proof fn lemma_bytes_page_stops(b: Seq<u8>, i: int)
    requires
        0 <= i <= b.len(),
        i % 8 == 0,
        b.len() < i + 8,
    ensures
        spec_bytes_page(b) == spec_bytes_page(b.take(i)) + spec_bytes_page(b.skip(i)),
        spec_bytes_page(b.skip(i)).len() == 0,
    decreases i,
{
    if i == 0 {
        assert(b.take(0) =~= Seq::<u8>::empty());
        assert(b.skip(0) =~= b);
        assert(spec_bytes_page(b) =~= spec_bytes_page(b.take(0)) + spec_bytes_page(b.skip(0)));
    } else {
        assert(i >= 8) by {
            if i < 8 {
                vstd::arithmetic::div_mod::lemma_small_mod(i as nat, 8nat);
            }
        }
        lemma_bytes_page_stops(b.skip(8), i - 8);
        assert(b.take(i).take(8) =~= b.take(8));
        assert(b.take(i).skip(8) =~= b.skip(8).take(i - 8));
        assert(b.skip(i) =~= b.skip(8).skip(i - 8));
        assert(spec_bytes_page(b) =~= spec_bytes_page(b.take(i)) + spec_bytes_page(b.skip(i)));
    }
}

/// For a page that never held a null, the byte stream decodes back to
/// exactly the page: the encoding is position-stable. (A page with nulls
/// loses them, which is the format's stated limitation.)
pub proof fn lemma_page_round_trip(s: Seq<Option<i64>>)
    requires
        forall|i: int| 0 <= i < s.len() ==> (#[trigger] s[i]) is Some,
    ensures
        spec_bytes_page(spec_page_bytes(s)) == s,
    decreases s.len(),
{
    if s.len() == 0 {
        assert(spec_page_bytes(s).len() == 0);
    } else {
        let v = s[0]->Some_0;
        let rest = s.skip(1);
        lemma_page_round_trip(rest);
        lemma_i64_be_round_trip(v);
        lemma_page_bytes_len(rest);
        let b = spec_page_bytes(s);
        assert(b =~= spec_i64_be_bytes(v) + spec_page_bytes(rest));
        assert(b.len() == 8 + spec_page_bytes(rest).len());
        assert(b.take(8) =~= spec_i64_be_bytes(v));
        assert(b.skip(8) =~= spec_page_bytes(rest));
        assert(spec_bytes_page(b) =~= seq![s[0]] + spec_bytes_page(spec_page_bytes(rest)));
        assert(spec_bytes_page(b) =~= s);
    }
}

/// A null-free page encodes to exactly eight bytes per slot.
pub proof fn lemma_page_bytes_len(s: Seq<Option<i64>>)
    requires
        forall|i: int| 0 <= i < s.len() ==> (#[trigger] s[i]) is Some,
    ensures
        spec_page_bytes(s).len() == 8 * s.len(),
    decreases s.len(),
{
    if s.len() > 0 {
        assert(s[0] is Some);
        assert forall|i: int| 0 <= i < s.skip(1).len() implies (#[trigger] s.skip(1)[i])
            is Some by {
            assert(s.skip(1)[i] == s[i + 1]);
        }
        lemma_page_bytes_len(s.skip(1));
    }
}

} // verus!
