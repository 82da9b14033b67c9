//! Finding entries of a list by a number: under each number the places of the
//! entries of that number are kept, so that an entry is found without a look
//! at the entries of other numbers.

use vstd::prelude::*;
use vstd::utf8::encode_utf8;
use vstd::string::StringSliceAdditionalSpecFns;
use std::collections::HashMap;

verus! {

/// The number of a text, made of its bytes. Texts that are equal have one
/// number; texts of one number need not be equal.
pub open spec fn number_of_bytes(bytes: Seq<u8>) -> u64
    decreases bytes.len(),
{
    if bytes.len() == 0 {
        0
    } else {
        ((number_of_bytes(bytes.drop_last()) % 0x007f_ffff_ffff_ffff) * 257 + bytes.last()
            + 1) as u64
    }
}

/// The number of a text.
pub open spec fn number_of(text: Seq<char>) -> u64 {
    number_of_bytes(encode_utf8(text))
}

/// The number of a pair of texts.
pub open spec fn number_of_pair(a: Seq<char>, b: Seq<char>) -> u64 {
    ((number_of(a) % 0x8000_0000) * 0x1_0000_0000 + number_of(b) % 0x1_0000_0000) as u64
}

/// True when `found` holds, in rising order, the places of all the entries
/// that have the number `wanted`, and no other place.
pub open spec fn places_under(found: Seq<usize>, numbers: Seq<u64>, wanted: u64) -> bool {
    &&& forall|k: int|
        0 <= k < found.len() ==> (#[trigger] found[k]) < numbers.len() && numbers[found[k] as int]
            == wanted
    &&& forall|j: int, k: int|
        0 <= j < k < found.len() ==> (#[trigger] found[j]) < (#[trigger] found[k])
    &&& forall|i: int|
        0 <= i < numbers.len() && #[trigger] numbers[i] == wanted ==> stands_in(found, i)
}

/// True when `i` is one of the places.
pub open spec fn stands_in(places: Seq<usize>, i: int) -> bool {
    exists|k: int| 0 <= k < places.len() && #[trigger] places[k] == i
}

/// Looking through the places under a number finds the first of all entries
/// that is looked for: where none of the places before the `k`-th is a hit, no
/// entry before the `k`-th place is, and no entry at all once all places have
/// been looked at. A hit is an entry of the wanted number.
pub proof fn lemma_first_under(
    found: Seq<usize>,
    numbers: Seq<u64>,
    wanted: u64,
    hit: spec_fn(int) -> bool,
    k: int,
)
    requires
        places_under(found, numbers, wanted),
        0 <= k <= found.len(),
        forall|i: int| 0 <= i < numbers.len() && #[trigger] hit(i) ==> numbers[i] == wanted,
        forall|j: int| 0 <= j < k ==> !hit(#[trigger] found[j] as int),
    ensures
        forall|i: int|
            0 <= i < (if k < found.len() {
                found[k] as int
            } else {
                numbers.len() as int
            }) ==> !#[trigger] hit(i),
{
    assert forall|i: int|
        0 <= i < (if k < found.len() {
            found[k] as int
        } else {
            numbers.len() as int
        }) implies !#[trigger] hit(i) by {
        if hit(i) {
            assert(numbers[i] == wanted);
            assert(stands_in(found, i));
            let j = choose|j: int| 0 <= j < found.len() && #[trigger] found[j] == i;
            if j >= k {
                assert(k < found.len());
                if j > k {
                    assert(found[k] < found[j]);
                }
            }
        }
    }
}

/// The number of a text.
pub fn number(text: &str) -> (h: u64)
    ensures
        h == number_of(text@),
{
    let bytes = text.as_bytes();
    let mut h: u64 = 0;
    let mut i: usize = 0;
    assert(bytes@.take(0) =~= Seq::<u8>::empty());
    while i < bytes.len()
        invariant
            i <= bytes@.len(),
            h == number_of_bytes(bytes@.take(i as int)),
        decreases bytes@.len() - i,
    {
        proof {
            let upto = bytes@.take(i + 1);
            assert(upto.drop_last() =~= bytes@.take(i as int));
            assert(upto.last() == bytes@[i as int]);
        }
        let byte: u64 = bytes[i] as u64;
        h = (h % 0x007f_ffff_ffff_ffff) * 257 + byte + 1;
        i += 1;
    }
    assert(bytes@.take(i as int) =~= bytes@);
    h
}

/// The number of a pair of texts.
pub fn number_pair(a: &str, b: &str) -> (h: u64)
    ensures
        h == number_of_pair(a@, b@),
{
    (number(a) % 0x8000_0000) * 0x1_0000_0000 + number(b) % 0x1_0000_0000
}

/// The numbers of the entries of a list, and under each number the places of
/// the entries that have it.
pub struct Places {
    numbers: Vec<u64>,
    places: HashMap<u64, Vec<usize>>,
    none: Vec<usize>,
}

impl Places {
    /// Under each number stand the places of the entries of that number, and
    /// a number of no entry has no places.
    #[verifier::type_invariant]
    spec fn well_formed(self) -> bool {
        &&& self.none@.len() == 0
        &&& forall|h: u64|
            self.places@.contains_key(h) ==> places_under(
                (#[trigger] self.places@[h])@,
                self.numbers@,
                h,
            )
        &&& forall|i: int|
            0 <= i < self.numbers@.len() ==> self.places@.contains_key(#[trigger] self.numbers@[i])
    }

    /// The numbers of the entries, in the order of the entries.
    pub closed spec fn numbers(self) -> Seq<u64> {
        self.numbers@
    }

    /// The places of a list without entries.
    pub fn new() -> (r: Places)
        ensures
            r.numbers() == Seq::<u64>::empty(),
    {
        Places { numbers: Vec::new(), places: HashMap::new(), none: Vec::new() }
    }

    /// Takes note of one more entry, which has the given number.
    pub fn push(&mut self, number: u64)
        ensures
            final(self).numbers() == old(self).numbers().push(number),
    {
        proof {
            use_type_invariant(&*self);
        }
        let mut taken = Places::new();
        std::mem::swap(self, &mut taken);
        let Places { mut numbers, mut places, none } = taken;
        let ghost before = numbers@;
        let ghost known = places@;
        let place = numbers.len();
        let mut bucket = match places.remove(&number) {
            Some(bucket) => bucket,
            None => Vec::new(),
        };
        let ghost old_bucket = bucket@;
        bucket.push(place);
        places.insert(number, bucket);
        numbers.push(number);
        proof {
            let after = numbers@;
            assert forall|h: u64| places@.contains_key(h) implies places_under(
                (#[trigger] places@[h])@,
                after,
                h,
            ) by {
                let found = places@[h]@;
                if h != number {
                    assert(known.contains_key(h) && places@[h] == known[h]);
                    assert forall|i: int|
                        0 <= i < after.len() && #[trigger] after[i] == h implies stands_in(
                        found,
                        i,
                    ) by {
                        assert(before[i] == h);
                        assert(stands_in(known[h]@, i));
                    }
                } else {
                    if known.contains_key(h) {
                        assert(places_under(old_bucket, before, h));
                    }
                    assert forall|k: int| 0 <= k < found.len() implies (#[trigger] found[k])
                        < after.len() && after[found[k] as int] == h by {
                        if k < old_bucket.len() {
                            assert(found[k] == old_bucket[k]);
                        }
                    }
                    assert forall|j: int, k: int| 0 <= j < k < found.len() implies (
                    #[trigger] found[j]) < (#[trigger] found[k]) by {
                        assert(found[j] == old_bucket[j]);
                        if k < old_bucket.len() {
                            assert(found[k] == old_bucket[k]);
                        }
                    }
                    assert forall|i: int|
                        0 <= i < after.len() && #[trigger] after[i] == h implies stands_in(
                        found,
                        i,
                    ) by {
                        if i < before.len() {
                            assert(before[i] == h);
                            assert(known.contains_key(h));
                            assert(stands_in(old_bucket, i));
                            let k = choose|k: int|
                                0 <= k < old_bucket.len() && #[trigger] old_bucket[k] == i;
                            assert(found[k] == i);
                        } else {
                            assert(found[old_bucket.len() as int] == i);
                        }
                    }
                }
            }
            assert forall|i: int| 0 <= i < after.len() implies places@.contains_key(
                #[trigger] after[i],
            ) by {
                if i < before.len() {
                    assert(known.contains_key(before[i]));
                }
            }
        }
        *self = Places { numbers, places, none };
    }

    /// The places of the entries that have the given number, in rising order.
    pub fn under(&self, number: u64) -> (found: &Vec<usize>)
        ensures
            places_under(found@, self.numbers(), number),
    {
        proof {
            use_type_invariant(self);
        }
        match self.places.get(&number) {
            Some(bucket) => bucket,
            None => {
                assert forall|i: int|
                    0 <= i < self.numbers@.len() && #[trigger] self.numbers@[i]
                        == number implies stands_in(self.none@, i) by {
                    assert(self.places@.contains_key(self.numbers@[i]));
                }
                &self.none
            },
        }
    }
}

} // verus!
