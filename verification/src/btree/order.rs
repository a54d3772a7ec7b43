//! Sequences of records in key order, and what inserting into one means.
use vstd::prelude::*;
use crate::device::IoTDevice;

verus! {

/// The keys rise strictly from each record to the next.
pub open spec fn ascending(records: Seq<IoTDevice>) -> bool {
    forall|i: int, j: int|
        0 <= i < j < records.len() ==> (#[trigger] records[i]).numerical_id < (
        #[trigger] records[j]).numerical_id
}

/// The keys never descend from a record to the next; some may be alike.
pub open spec fn never_descends(records: Seq<IoTDevice>) -> bool {
    forall|i: int, j: int|
        0 <= i < j < records.len() ==> (#[trigger] records[i]).numerical_id <= (
        #[trigger] records[j]).numerical_id
}

/// Keys that ascend never descend.
pub proof fn lemma_ascending_never_descends(records: Seq<IoTDevice>)
    requires
        ascending(records),
    ensures
        never_descends(records),
{
}

/// Some record carries this key.
pub open spec fn has_key(records: Seq<IoTDevice>, key: u64) -> bool {
    exists|i: int| 0 <= i < records.len() && (#[trigger] records[i]).numerical_id == key
}

/// The length of the longest prefix that ends in a key not above `key`:
/// where the keys never descend, the number of records whose key is not
/// above `key`. A record with that key belongs right behind them.
pub open spec fn position(records: Seq<IoTDevice>, key: u64) -> int
    decreases records.len(),
{
    if records.len() == 0 || records.last().numerical_id <= key {
        records.len() as int
    } else {
        position(records.drop_last(), key)
    }
}

/// The sequence with `device` put where its key belongs.
pub open spec fn with_record(records: Seq<IoTDevice>, device: IoTDevice) -> Seq<IoTDevice> {
    records.insert(position(records, device.numerical_id), device)
}

/// An index that has no greater key before it and only greater keys from it
/// on is the position of the key.
pub proof fn lemma_position_is(records: Seq<IoTDevice>, key: u64, p: int)
    requires
        0 <= p <= records.len(),
        forall|i: int| 0 <= i < p ==> (#[trigger] records[i]).numerical_id <= key,
        forall|i: int| p <= i < records.len() ==> (#[trigger] records[i]).numerical_id > key,
    ensures
        position(records, key) == p,
    decreases records.len(),
{
    if records.len() > 0 && p < records.len() {
        lemma_position_is(records.drop_last(), key, p);
    }
}

/// Where the keys never descend, the position of a key parts the records
/// into those not above the key and those above it.
pub proof fn lemma_position_parts(records: Seq<IoTDevice>, key: u64)
    requires
        never_descends(records),
    ensures
        0 <= position(records, key) <= records.len(),
        forall|i: int|
            0 <= i < position(records, key) ==> (#[trigger] records[i]).numerical_id <= key,
        forall|i: int|
            position(records, key) <= i < records.len() ==> (#[trigger] records[i]).numerical_id
                > key,
    decreases records.len(),
{
    if records.len() > 0 {
        let last = records.len() - 1;
        if records.last().numerical_id <= key {
            assert forall|i: int| 0 <= i < records.len() implies (
            #[trigger] records[i]).numerical_id <= key by {
                if i < last {
                    assert(records[i].numerical_id <= records[last].numerical_id);
                }
            }
        } else {
            let front = records.drop_last();
            assert forall|i: int, j: int| 0 <= i < j < front.len() implies (
            #[trigger] front[i]).numerical_id <= (#[trigger] front[j]).numerical_id by {
                assert(front[i] == records[i] && front[j] == records[j]);
            }
            lemma_position_parts(front, key);
            assert forall|i: int| 0 <= i < position(records, key) implies (
            #[trigger] records[i]).numerical_id <= key by {
                assert(front[i] == records[i]);
            }
            assert forall|i: int| position(records, key) <= i < records.len() implies (
            #[trigger] records[i]).numerical_id > key by {
                if i < last {
                    assert(front[i] == records[i]);
                }
            }
        }
    }
}

/// Adding a record whose key is new to an ascending sequence leaves it
/// ascending, one longer, and holding the key.
pub proof fn lemma_with_record_ascending(records: Seq<IoTDevice>, device: IoTDevice)
    requires
        ascending(records),
        !has_key(records, device.numerical_id),
    ensures
        ascending(with_record(records, device)),
        with_record(records, device).len() == records.len() + 1,
        has_key(with_record(records, device), device.numerical_id),
{
    let key = device.numerical_id;
    let p = position(records, key);
    lemma_ascending_never_descends(records);
    lemma_position_parts(records, key);
    let after = with_record(records, device);
    assert forall|i: int, j: int| 0 <= i < j < after.len() implies (
    #[trigger] after[i]).numerical_id < (#[trigger] after[j]).numerical_id by {
        if i < p {
            assert(after[i] == records[i]);
            assert(records[i].numerical_id != key);
        }
        let si = if i < p {
            i
        } else {
            i - 1
        };
        let sj = if j < p {
            j
        } else {
            j - 1
        };
        if i != p {
            assert(after[i] == records[si]);
        }
        if j != p {
            assert(after[j] == records[sj]);
            assert(records[sj].numerical_id != key);
        }
    }
    assert(after[p] == device);
}

/// The parts of an ascending sequence are ascending, and every record of the
/// first part lies below every record of the second.
pub proof fn lemma_ascending_parts(first: Seq<IoTDevice>, second: Seq<IoTDevice>)
    requires
        ascending(first + second),
    ensures
        ascending(first),
        ascending(second),
        forall|i: int, j: int|
            0 <= i < first.len() && 0 <= j < second.len() ==> (#[trigger] first[i]).numerical_id
                < (#[trigger] second[j]).numerical_id,
{
    let whole = first + second;
    assert forall|i: int, j: int| 0 <= i < j < first.len() implies (
    #[trigger] first[i]).numerical_id < (#[trigger] first[j]).numerical_id by {
        assert(whole[i] == first[i] && whole[j] == first[j]);
    }
    assert forall|i: int, j: int| 0 <= i < j < second.len() implies (
    #[trigger] second[i]).numerical_id < (#[trigger] second[j]).numerical_id by {
        assert(whole[first.len() + i] == second[i] && whole[first.len() + j] == second[j]);
    }
    assert forall|i: int, j: int| 0 <= i < first.len() && 0 <= j < second.len() implies (
    #[trigger] first[i]).numerical_id < (#[trigger] second[j]).numerical_id by {
        assert(whole[i] == first[i] && whole[first.len() + j] == second[j]);
    }
}

/// The parts of a sequence whose keys never descend are so themselves, and
/// no record of the first part lies above a record of the second.
pub proof fn lemma_never_descends_parts(first: Seq<IoTDevice>, second: Seq<IoTDevice>)
    requires
        never_descends(first + second),
    ensures
        never_descends(first),
        never_descends(second),
        forall|i: int, j: int|
            0 <= i < first.len() && 0 <= j < second.len() ==> (#[trigger] first[i]).numerical_id
                <= (#[trigger] second[j]).numerical_id,
{
    let whole = first + second;
    assert forall|i: int, j: int| 0 <= i < j < first.len() implies (
    #[trigger] first[i]).numerical_id <= (#[trigger] first[j]).numerical_id by {
        assert(whole[i] == first[i] && whole[j] == first[j]);
    }
    assert forall|i: int, j: int| 0 <= i < j < second.len() implies (
    #[trigger] second[i]).numerical_id <= (#[trigger] second[j]).numerical_id by {
        assert(whole[first.len() + i] == second[i] && whole[first.len() + j] == second[j]);
    }
    assert forall|i: int, j: int| 0 <= i < first.len() && 0 <= j < second.len() implies (
    #[trigger] first[i]).numerical_id <= (#[trigger] second[j]).numerical_id by {
        assert(whole[i] == first[i] && whole[first.len() + j] == second[j]);
    }
}

/// A key that occurs in no part occurs nowhere in the whole, and conversely.
pub proof fn lemma_has_key_parts(first: Seq<IoTDevice>, second: Seq<IoTDevice>, key: u64)
    ensures
        has_key(first + second, key) <==> has_key(first, key) || has_key(second, key),
{
    let whole = first + second;
    if has_key(first, key) {
        let i = choose|i: int| 0 <= i < first.len() && (#[trigger] first[i]).numerical_id == key;
        assert(whole[i] == first[i]);
    }
    if has_key(second, key) {
        let i = choose|i: int|
            0 <= i < second.len() && (#[trigger] second[i]).numerical_id == key;
        assert(whole[first.len() + i] == second[i]);
    }
    if has_key(whole, key) {
        let i = choose|i: int| 0 <= i < whole.len() && (#[trigger] whole[i]).numerical_id == key;
        if i < first.len() {
            assert(whole[i] == first[i]);
        } else {
            assert(whole[i] == second[i - first.len()]);
        }
    }
}

/// Adding a record to a sequence whose keys never descend leaves it so.
pub proof fn lemma_with_record_never_descends(records: Seq<IoTDevice>, device: IoTDevice)
    requires
        never_descends(records),
    ensures
        never_descends(with_record(records, device)),
{
    let key = device.numerical_id;
    let p = position(records, key);
    lemma_position_parts(records, key);
    let after = with_record(records, device);
    assert forall|i: int, j: int| 0 <= i < j < after.len() implies (
    #[trigger] after[i]).numerical_id <= (#[trigger] after[j]).numerical_id by {
        if i < p {
            assert(after[i] == records[i]);
        } else if i > p {
            assert(after[i] == records[i - 1]);
        }
        if j < p {
            assert(after[j] == records[j]);
        } else if j > p {
            assert(after[j] == records[j - 1]);
        }
    }
}

/// Putting a record into the middle part of a sequence of three parts, where
/// the first part lies not above its key and the last part lies above it,
/// puts it where its key belongs in the whole.
pub proof fn lemma_with_record_in_middle(
    before: Seq<IoTDevice>,
    middle: Seq<IoTDevice>,
    after: Seq<IoTDevice>,
    device: IoTDevice,
)
    requires
        never_descends(middle),
        forall|i: int|
            0 <= i < before.len() ==> (#[trigger] before[i]).numerical_id <= device.numerical_id,
        forall|i: int|
            0 <= i < after.len() ==> (#[trigger] after[i]).numerical_id > device.numerical_id,
    ensures
        before + with_record(middle, device) + after == with_record(
            before + middle + after,
            device,
        ),
{
    let key = device.numerical_id;
    let whole = before + middle + after;
    let p = position(middle, key);
    lemma_position_parts(middle, key);
    assert forall|i: int| 0 <= i < before.len() + p implies (#[trigger] whole[i]).numerical_id
        <= key by {
        if i < before.len() {
            assert(whole[i] == before[i]);
        } else {
            assert(whole[i] == middle[i - before.len()]);
        }
    }
    assert forall|i: int| before.len() + p <= i < whole.len() implies (
    #[trigger] whole[i]).numerical_id > key by {
        if i < before.len() + middle.len() {
            assert(whole[i] == middle[i - before.len()]);
        } else {
            assert(whole[i] == after[i - before.len() - middle.len()]);
        }
    }
    lemma_position_is(whole, key, before.len() + p);
    assert(before + with_record(middle, device) + after =~= with_record(whole, device));
}

} // verus!
