//! The instance baselines: for each class id the bytes that an entity of
//! that class starts from, filled from the items of a string table.

use vstd::prelude::*;

verus! {

/// The name of the string table that carries the baselines.
pub const INSTANCE_BASELINE_TABLE_NAME: &'static str = "instancebaseline";

/// Why a string table could not be taken over.
#[derive(Debug, Clone, Copy, PartialEq, Eq)]
pub enum Error {
    /// An item's name is no decimal class id that fits an `i32`.
    ParseIntError,
    /// An item has no name.
    MissingClassId,
    /// An item names a class id that the table has no place for.
    ClassIdOutOfRange,
}

/// One item of a string table: its name and the bytes that come with it.
#[derive(Debug, Clone)]
pub struct StringTableItem {
    pub string: Option<Vec<u8>>,
    pub user_data: Option<Vec<u8>>,
}

/// The baselines, each at the position of its class id.
#[derive(Debug, Clone)]
pub struct InstanceBaseline {
    strs: Vec<Option<Vec<u8>>>,
}

/// Whether `b` is one of the characters `0` to `9`.
pub open spec fn is_digit(b: u8) -> bool {
    48 <= b <= 57
}

/// The number that a string of decimal digits writes.
pub open spec fn digits_value(digits: Seq<u8>) -> nat
    decreases digits.len(),
{
    if digits.len() == 0 {
        0
    } else {
        digits_value(digits.drop_last()) * 10 + (if is_digit(digits.last()) {
            (digits.last() - 48) as nat
        } else {
            0
        })
    }
}

/// Every character of `digits` is a decimal digit.
pub open spec fn all_digits(digits: Seq<u8>) -> bool {
    forall|i: int| 0 <= i < digits.len() ==> is_digit(#[trigger] digits[i])
}

/// The class id that `bytes` writes: an optional sign, `+` or `-`, and one
/// or more decimal digits, whose number fits an `i32`.
pub open spec fn spec_parse_class_id(bytes: Seq<u8>) -> Option<i32> {
    let negative = bytes.len() > 0 && bytes[0] == 45;
    let signed = bytes.len() > 0 && (bytes[0] == 45 || bytes[0] == 43);
    let digits = if signed {
        bytes.skip(1)
    } else {
        bytes
    };
    if digits.len() == 0 || !all_digits(digits) {
        None
    } else if negative {
        if digits_value(digits) <= 2147483648 {
            Some((-(digits_value(digits) as int)) as i32)
        } else {
            None
        }
    } else {
        if digits_value(digits) <= 2147483647 {
            Some(digits_value(digits) as i32)
        } else {
            None
        }
    }
}

/// A longer string of digits writes no smaller number.
proof fn lemma_digits_value_prefix(digits: Seq<u8>, i: int)
    requires
        0 <= i <= digits.len(),
    ensures
        digits_value(digits.take(i)) <= digits_value(digits),
    decreases digits.len() - i,
{
    if i < digits.len() {
        assert(digits.take(i + 1).drop_last() =~= digits.take(i));
        lemma_digits_value_prefix(digits, i + 1);
    } else {
        assert(digits.take(i) =~= digits);
    }
}

/// Reads a decimal class id.
pub fn parse_class_id(bytes: &[u8]) -> (r: Option<i32>)
    ensures
        r == spec_parse_class_id(bytes@),
{
    let n: usize = bytes.len();
    if n == 0 {
        return None;
    }
    let negative: bool = bytes[0] == 45;
    let start: usize = if bytes[0] == 45 || bytes[0] == 43 {
        1
    } else {
        0
    };
    let ghost digits = bytes@.skip(start as int);
    proof {
        assert(bytes@.skip(0) =~= bytes@);
    }
    if start == n {
        return None;
    }
    let mut value: u64 = 0;
    let mut i: usize = start;
    while i < n
        invariant
            start <= i <= n,
            n == bytes@.len(),
            n > 0,
            start < n,
            negative == (bytes@[0] == 45),
            start == (if bytes@[0] == 45 || bytes@[0] == 43 {
                1int
            } else {
                0int
            }),
            digits == bytes@.skip(start as int),
            bytes@.skip(0) == bytes@,
            value == digits_value(digits.take(i - start)),
            value <= 2147483648,
            all_digits(digits.take(i - start)),
        decreases n - i,
    {
        let b: u8 = bytes[i];
        proof {
            assert(digits.take(i - start + 1).drop_last() =~= digits.take(i - start));
            assert(digits.take(i - start + 1).last() == b);
        }
        if b < 48 || b > 57 {
            proof {
                assert(digits[i - start] == b);
                assert(!is_digit(digits[i - start]));
                assert(!all_digits(digits));
            }
            return None;
        }
        value = value * 10 + (b - 48) as u64;
        if value > 2147483648 {
            proof {
                lemma_digits_value_prefix(digits, i - start + 1);
            }
            return None;
        }
        proof {
            assert forall|k: int| 0 <= k < i - start + 1 implies is_digit(
                #[trigger] digits.take(i - start + 1)[k],
            ) by {
                if k < i - start {
                    assert(digits.take(i - start)[k] == digits.take(i - start + 1)[k]);
                }
            }
        }
        i += 1;
    }
    proof {
        assert(digits.take(n - start) =~= digits);
    }
    if negative {
        Some((-(value as i64)) as i32)
    } else if value <= 2147483647 {
        Some(value as i32)
    } else {
        None
    }
}

/// What an optional blob holds.
pub open spec fn blob_view(blob: Option<Vec<u8>>) -> Option<Seq<u8>> {
    match blob {
        Some(bytes) => Some(bytes@),
        None => None,
    }
}

/// `strs`, made longer with absent baselines where it is shorter than
/// `classes`.
pub open spec fn resized(strs: Seq<Option<Seq<u8>>>, classes: nat) -> Seq<Option<Seq<u8>>> {
    if strs.len() < classes {
        strs + Seq::new((classes - strs.len()) as nat, |i: int| None::<Seq<u8>>)
    } else {
        strs
    }
}

/// Why `item` cannot go into a table of `len` places, if it cannot.
pub open spec fn item_fault(len: nat, item: StringTableItem) -> Option<Error> {
    match item.string {
        None => Some(Error::MissingClassId),
        Some(name) => match spec_parse_class_id(name@) {
            None => Some(Error::ParseIntError),
            Some(id) => if 0 <= id < len {
                None
            } else {
                Some(Error::ClassIdOutOfRange)
            },
        },
    }
}

/// The table after `items` went into it in their order, up to the first item
/// that cannot, and why that item cannot.
pub open spec fn run_items(strs: Seq<Option<Seq<u8>>>, items: Seq<StringTableItem>) -> (
    Seq<Option<Seq<u8>>>,
    Option<Error>,
)
    decreases items.len(),
{
    if items.len() == 0 {
        (strs, None)
    } else {
        let before = run_items(strs, items.drop_last());
        if before.1 is Some {
            before
        } else {
            match item_fault(before.0.len(), items.last()) {
                Some(e) => (before.0, Some(e)),
                None => (
                    before.0.update(
                        spec_parse_class_id(items.last().string->0@)->0 as int,
                        blob_view(items.last().user_data),
                    ),
                    None,
                ),
            }
        }
    }
}

/// A copy of a byte string.
fn copy_bytes(bytes: &Vec<u8>) -> (r: Vec<u8>)
    ensures
        r@ == bytes@,
{
    let mut r: Vec<u8> = Vec::new();
    let mut i: usize = 0;
    while i < bytes.len()
        invariant
            i <= bytes@.len(),
            r@ == bytes@.take(i as int),
        decreases bytes@.len() - i,
    {
        r.push(bytes[i]);
        proof {
            assert(r@ =~= bytes@.take(i + 1));
        }
        i += 1;
    }
    proof {
        assert(r@ =~= bytes@);
    }
    r
}

impl View for InstanceBaseline {
    type V = Seq<Option<Seq<u8>>>;

    /// The baseline of each class id, absent where the class has none.
    closed spec fn view(&self) -> Seq<Option<Seq<u8>>> {
        Seq::new(self.strs@.len(), |i: int| blob_view(self.strs@[i]))
    }
}

impl InstanceBaseline {
    /// A table without a place for any class.
    pub fn new() -> (r: InstanceBaseline)
        ensures
            r@ == Seq::<Option<Seq<u8>>>::empty(),
    {
        let r = InstanceBaseline { strs: Vec::new() };
        proof {
            assert(r@ =~= Seq::<Option<Seq<u8>>>::empty());
        }
        r
    }

    /// Takes over the items of a string table.
    ///
    /// The table first gets a place for each of `classes` classes. Each item
    /// in turn puts its bytes at the class id that its name writes. The first
    /// item that has no name, whose name is no class id, or whose class id has
    /// no place ends the call with its error; the items before it stand.
    pub fn update(&mut self, items: &Vec<StringTableItem>, classes: usize) -> (r: Result<(), Error>)
        ensures
            final(self)@ == run_items(resized(old(self)@, classes as nat), items@).0,
            r == (match run_items(resized(old(self)@, classes as nat), items@).1 {
                Some(e) => Err::<(), Error>(e),
                None => Ok::<(), Error>(()),
            }),
    {
        let ghost start = resized(self@, classes as nat);
        while self.strs.len() < classes
            invariant
                old(self).strs@.len() <= self.strs@.len(),
                self.strs@.len() <= classes || self.strs@.len() == old(self).strs@.len(),
                forall|k: int|
                    0 <= k < old(self).strs@.len() ==> self.strs@[k] == old(self).strs@[k],
                forall|k: int|
                    old(self).strs@.len() <= k < self.strs@.len() ==> (#[trigger] self.strs@[k])
                        is None,
            decreases classes - self.strs@.len(),
        {
            self.strs.push(None);
        }
        proof {
            assert(self@ =~= start);
        }
        let mut i: usize = 0;
        while i < items.len()
            invariant
                i <= items@.len(),
                start == resized(old(self)@, classes as nat),
                self@ == run_items(start, items@.take(i as int)).0,
                run_items(start, items@.take(i as int)).1 is None,
            decreases items@.len() - i,
        {
            proof {
                assert(items@.take(i + 1).drop_last() =~= items@.take(i as int));
                assert(items@.take(i + 1).last() == items@[i as int]);
            }
            let ghost before = self@;
            let item = &items[i];
            let name = match &item.string {
                Some(name) => name,
                None => {
                    proof {
                        lemma_fault_stands(start, items@, i + 1);
                    }
                    return Err(Error::MissingClassId);
                },
            };
            let id: i32 = match parse_class_id(name.as_slice()) {
                Some(id) => id,
                None => {
                    proof {
                        lemma_fault_stands(start, items@, i + 1);
                    }
                    return Err(Error::ParseIntError);
                },
            };
            if id < 0 || id as usize >= self.strs.len() {
                proof {
                    lemma_fault_stands(start, items@, i + 1);
                }
                return Err(Error::ClassIdOutOfRange);
            }
            let blob = match &item.user_data {
                Some(bytes) => Some(copy_bytes(bytes)),
                None => None,
            };
            self.strs.set(id as usize, blob);
            proof {
                assert(self@ =~= before.update(id as int, blob_view(item.user_data)));
            }
            i += 1;
        }
        proof {
            assert(items@.take(i as int) =~= items@);
        }
        Ok(())
    }

    /// The baseline of class `class_id`; `None` where the class has none or
    /// the table has no place for it.
    pub fn get_data(&self, class_id: i32) -> (r: Option<&[u8]>)
        ensures
            match r {
                Some(data) => 0 <= class_id < self@.len() && self@[class_id as int] == Some(data@),
                None => !(0 <= class_id < self@.len()) || self@[class_id as int].is_none(),
            },
    {
        if class_id < 0 || class_id as usize >= self.strs.len() {
            return None;
        }
        match &self.strs[class_id as usize] {
            Some(bytes) => Some(bytes.as_slice()),
            None => None,
        }
    }
}

/// Once an item cannot go in, the items after it change nothing.
proof fn lemma_fault_stands(strs: Seq<Option<Seq<u8>>>, items: Seq<StringTableItem>, n: int)
    requires
        0 <= n <= items.len(),
        run_items(strs, items.take(n)).1 is Some,
    ensures
        run_items(strs, items) == run_items(strs, items.take(n)),
    decreases items.len() - n,
{
    if n < items.len() {
        assert(items.take(n + 1).drop_last() =~= items.take(n));
        lemma_fault_stands(strs, items, n + 1);
    } else {
        assert(items.take(n) =~= items);
    }
}

impl Default for InstanceBaseline {
    fn default() -> (r: InstanceBaseline)
        ensures
            r@ == Seq::<Option<Seq<u8>>>::empty(),
    {
        InstanceBaseline::new()
    }
}

} // verus!
