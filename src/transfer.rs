//! Assembling an unsigned bundle that moves funds out of a multisig address.
use vstd::prelude::*;
use crate::address::string_views;
use crate::bundle::{
    is_address, is_valid_address, is_valid_transfer, pad_nines, remove_checksum, right_pad,
    strip_checksum, tag_of, unsigned_fragment, Transaction, Transfer, MESSAGE_LENGTH,
    TAG_LENGTH, is_trytes,
};
use crate::error::MultisigError;

verus! {

/// What the logic fixes of an entry: its address, value, tag and fragment.
pub type EntryModel = (Seq<char>, int, Seq<char>, Seq<char>);

pub open spec fn entry_model(tx: Transaction) -> EntryModel {
    (tx.address@, tx.value as int, tx.tag@, tx.signature_fragments@)
}

/// A message cut into fragments of 2187 trytes, the last one right-padded
/// with `9`; an empty message still takes one fragment.
pub open spec fn message_fragments(m: Seq<char>) -> Seq<Seq<char>>
    decreases m.len(),
{
    if m.len() <= MESSAGE_LENGTH {
        seq![pad_nines(m, MESSAGE_LENGTH as nat)]
    } else {
        seq![m.take(MESSAGE_LENGTH as int)] + message_fragments(m.skip(MESSAGE_LENGTH as int))
    }
}

/// The tag that the entries of a transfer carry.
pub open spec fn padded_tag(t: Transfer) -> Seq<char> {
    pad_nines(tag_of(t), TAG_LENGTH as nat)
}

/// The entries of one transfer: one per message fragment, the value on the first.
pub open spec fn transfer_entries(t: Transfer) -> Seq<EntryModel> {
    let frags = message_fragments(t.message@);
    Seq::new(
        frags.len(),
        |k: int|
            (
                strip_checksum(t.address@),
                if k == 0 {
                    t.value as int
                } else {
                    0
                },
                padded_tag(t),
                frags[k],
            ),
    )
}

/// The entries of the transfers, in order.
pub open spec fn transfers_entries(ts: Seq<Transfer>) -> Seq<EntryModel>
    decreases ts.len(),
{
    if ts.len() == 0 {
        Seq::empty()
    } else {
        transfers_entries(ts.drop_last()) + transfer_entries(ts.last())
    }
}

/// The sum of the transfers' values.
pub open spec fn total_value(ts: Seq<Transfer>) -> int
    decreases ts.len(),
{
    if ts.len() == 0 {
        0
    } else {
        total_value(ts.drop_last()) + ts.last().value
    }
}

/// The tag of the last transfer, which the input and remainder entries carry.
pub open spec fn last_tag(ts: Seq<Transfer>) -> Seq<char> {
    if ts.len() == 0 {
        pad_nines(Seq::empty(), TAG_LENGTH as nat)
    } else {
        padded_tag(ts.last())
    }
}

/// The entries of an unsigned multisig bundle: the transfers, then, where the
/// balance exceeds the total, one entry that sends the rest to `remainder`,
/// then `security_sum` unsigned input entries that take `balance` out of
/// `address`.
pub open spec fn bundle_layout(
    ts: Seq<Transfer>,
    security_sum: nat,
    balance: int,
    address: Seq<char>,
    remainder: Seq<char>,
) -> Seq<EntryModel> {
    let total = total_value(ts);
    let input = Seq::new(
        security_sum,
        |k: int|
            (
                address,
                if k == 0 {
                    -balance
                } else {
                    0
                },
                last_tag(ts),
                unsigned_fragment(),
            ),
    );
    let rest: Seq<EntryModel> = if balance > total {
        seq![(remainder, balance - total, last_tag(ts), unsigned_fragment())]
    } else {
        Seq::empty()
    };
    transfers_entries(ts) + rest + input
}

/// Where the entries of transfer `t` start.
pub open spec fn group_start(ts: Seq<Transfer>, t: int) -> int {
    transfers_entries(ts.take(t)).len() as int
}

/// The entries of each transfer carry one timestamp.
pub open spec fn stamped_per_transfer(ts: Seq<Transfer>, upto: int, e: Seq<Transaction>) -> bool {
    forall|t: int, k: int|
        #![trigger group_start(ts, t), e[k]]
        0 <= t < upto && group_start(ts, t) <= k < group_start(ts, t + 1) ==> e[k].timestamp
            == e[group_start(ts, t)].timestamp
}

proof fn lemma_group_start_step(ts: Seq<Transfer>, t: int)
    requires
        0 <= t < ts.len(),
    ensures
        group_start(ts, t + 1) == group_start(ts, t) + transfer_entries(ts[t]).len(),
{
    assert(ts.take(t + 1).drop_last() =~= ts.take(t));
    assert(ts.take(t + 1).last() == ts[t]);
}

proof fn lemma_stamp_step(
    ts: Seq<Transfer>,
    i: int,
    a: Seq<Transaction>,
    b: Seq<Transaction>,
    stamp: i64,
)
    requires
        0 <= i < ts.len(),
        stamped_per_transfer(ts, i, a),
        a.len() == group_start(ts, i),
        b.len() == a.len() + transfer_entries(ts[i]).len(),
        forall|k: int| 0 <= k < a.len() ==> #[trigger] b[k] == a[k],
        forall|k: int| a.len() <= k < b.len() ==> (#[trigger] b[k]).timestamp == stamp,
    ensures
        stamped_per_transfer(ts, i + 1, b),
{
    lemma_group_start_step(ts, i);
    assert forall|u: int, k: int|
        #![trigger group_start(ts, u), b[k]]
        0 <= u < i + 1 && group_start(ts, u) <= k < group_start(ts, u + 1) implies b[k].timestamp
            == b[group_start(ts, u)].timestamp by {
        lemma_group_start_monotone(ts, 0, u);
        if u < i {
            lemma_group_start_monotone(ts, u + 1, i);
            assert(b[k] == a[k]);
            assert(b[group_start(ts, u)] == a[group_start(ts, u)]);
            assert(a[k].timestamp == a[group_start(ts, u)].timestamp);
        }
    }
}

proof fn lemma_stamp_keep(ts: Seq<Transfer>, n: int, a: Seq<Transaction>, b: Seq<Transaction>)
    requires
        0 <= n <= ts.len(),
        stamped_per_transfer(ts, n, a),
        group_start(ts, n) <= a.len() <= b.len(),
        forall|k: int| 0 <= k < a.len() ==> (#[trigger] b[k]).timestamp == a[k].timestamp,
    ensures
        stamped_per_transfer(ts, n, b),
{
    assert forall|u: int, k: int|
        #![trigger group_start(ts, u), b[k]]
        0 <= u < n && group_start(ts, u) <= k < group_start(ts, u + 1) implies b[k].timestamp
            == b[group_start(ts, u)].timestamp by {
        lemma_group_start_monotone(ts, 0, u);
        lemma_group_start_monotone(ts, u + 1, n);
        assert(a[k].timestamp == a[group_start(ts, u)].timestamp);
        assert(b[group_start(ts, u)].timestamp == a[group_start(ts, u)].timestamp);
    }
}

proof fn lemma_group_start_monotone(ts: Seq<Transfer>, t: int, u: int)
    requires
        0 <= t <= u <= ts.len(),
    ensures
        group_start(ts, t) <= group_start(ts, u),
    decreases u - t,
{
    if t < u {
        lemma_group_start_step(ts, u - 1);
        lemma_group_start_monotone(ts, t, u - 1);
    }
}

pub open spec fn all_valid_transfers(ts: Seq<Transfer>) -> bool {
    forall|i: int| 0 <= i < ts.len() ==> is_valid_transfer(#[trigger] ts[i])
}

/// The entries carry consecutive indices and one bundle hash, which the hasher
/// returned for entries with the same addresses, values, tags, timestamps and
/// indices.
pub open spec fn sealed_by<F: Fn(&Vec<Transaction>) -> String>(
    bundle_hash: F,
    r: Seq<Transaction>,
) -> bool {
    &&& forall|k: int|
        0 <= k < r.len() ==> (#[trigger] r[k]).current_index == k && r[k].last_index == r.len()
            - 1 && r[k].bundle@ == r[0].bundle@
    &&& exists|v: &Vec<Transaction>|
        {
            &&& #[trigger] bundle_hash.ensures((v,), r[0].bundle)
            &&& v@.len() == r.len()
            &&& forall|k: int|
                0 <= k < r.len() ==> (#[trigger] v@[k]).address == r[k].address && v@[k].value
                    == r[k].value && v@[k].tag == r[k].tag && v@[k].timestamp == r[k].timestamp
                    && v@[k].current_index == r[k].current_index && v@[k].last_index
                    == r[k].last_index
        }
}

proof fn lemma_total_prefix(ts: Seq<Transfer>, i: int)
    requires
        all_valid_transfers(ts),
        0 <= i <= ts.len(),
    ensures
        0 <= total_value(ts.take(i)) <= total_value(ts),
    decreases ts.len() - i,
{
    if i < ts.len() {
        lemma_total_prefix(ts, i + 1);
        assert(ts.take(i + 1).drop_last() =~= ts.take(i));
        assert(ts.take(i + 1).last() == ts[i]);
        assert(ts[i].value >= 0);
        let p = ts.take(i);
        assert(all_valid_transfers(p)) by {
            assert forall|j: int| 0 <= j < p.len() implies is_valid_transfer(#[trigger] p[j]) by {
                assert(p[j] == ts[j]);
            }
        }
        lemma_total_nonneg(p);
    } else {
        assert(ts.take(i) =~= ts);
        lemma_total_nonneg(ts);
    }
}

proof fn lemma_total_nonneg(ts: Seq<Transfer>)
    requires
        all_valid_transfers(ts),
    ensures
        0 <= total_value(ts),
    decreases ts.len(),
{
    if ts.len() > 0 {
        let p = ts.drop_last();
        assert(all_valid_transfers(p)) by {
            assert forall|i: int| 0 <= i < p.len() implies is_valid_transfer(#[trigger] p[i]) by {
                assert(p[i] == ts[i]);
            }
        }
        lemma_total_nonneg(p);
        assert(is_valid_transfer(ts[ts.len() - 1]));
    }
}

/// Relies on chrono's `Utc::now` and `DateTime::timestamp`: the current Unix
/// time in seconds. Nothing is known of its value.
#[verifier::external_body]
fn now_timestamp() -> i64 {
    chrono::Utc::now().timestamp()
}

fn tag_of_transfer(t: &Transfer) -> (r: String)
    ensures
        r@ == tag_of(*t),
{
    match &t.tag {
        Some(s) => s.clone(),
        None => String::new(),
    }
}

fn transfers_valid(ts: &[Transfer]) -> (r: bool)
    ensures
        r == all_valid_transfers(ts@),
{
    let mut i: usize = 0;
    while i < ts.len()
        invariant
            i <= ts@.len(),
            forall|j: int| 0 <= j < i ==> is_valid_transfer(#[trigger] ts@[j]),
        decreases ts@.len() - i,
    {
        let t = &ts[i];
        let tag = tag_of_transfer(t);
        let stripped = remove_checksum(t.address.as_str());
        let ok = is_valid_address(stripped.as_str()) && t.value >= 0 && is_trytes(
            t.message.as_str(),
        ) && is_trytes(tag.as_str()) && tag.unicode_len() <= TAG_LENGTH;
        if !ok {
            return false;
        }
        i = i + 1;
    }
    true
}

fn sum_values(ts: &[Transfer]) -> (r: i64)
    requires
        all_valid_transfers(ts@),
        total_value(ts@) <= i64::MAX,
    ensures
        r == total_value(ts@),
{
    let mut total: i64 = 0;
    let mut i: usize = 0;
    while i < ts.len()
        invariant
            i <= ts@.len(),
            all_valid_transfers(ts@),
            total_value(ts@) <= i64::MAX,
            total == total_value(ts@.take(i as int)),
        decreases ts@.len() - i,
    {
        proof {
            lemma_total_prefix(ts@, i + 1);
            assert(ts@.take(i + 1).drop_last() =~= ts@.take(i as int));
        }
        total = total + ts[i].value;
        i = i + 1;
    }
    assert(ts@.take(i as int) =~= ts@);
    total
}

/// The message of a transfer cut into fragments of 2187 trytes, the last
/// right-padded with `9`.
pub fn split_message(m: &str) -> (r: Vec<String>)
    ensures
        string_views(r@) == message_fragments(m@),
{
    let n = m.unicode_len();
    let mut from: usize = 0;
    let mut out: Vec<String> = Vec::new();
    assert(m@.skip(0) =~= m@);
    while n - from > MESSAGE_LENGTH
        invariant
            n == m@.len(),
            from <= n,
            string_views(out@) + message_fragments(m@.skip(from as int)) == message_fragments(
                m@,
            ),
        decreases n - from,
    {
        let piece = String::from_str(m.substring_char(from, from + MESSAGE_LENGTH));
        proof {
            let rest = m@.skip(from as int);
            assert(rest.take(MESSAGE_LENGTH as int) =~= piece@);
            assert(rest.skip(MESSAGE_LENGTH as int) =~= m@.skip(from + MESSAGE_LENGTH));
            assert(string_views(out@.push(piece)) =~= string_views(out@).push(piece@));
            assert(string_views(out@).push(piece@) + message_fragments(
                m@.skip(from + MESSAGE_LENGTH),
            ) =~= string_views(out@) + message_fragments(rest));
        }
        out.push(piece);
        from = from + MESSAGE_LENGTH;
    }
    let last = right_pad(m.substring_char(from, n), MESSAGE_LENGTH);
    proof {
        let rest = m@.skip(from as int);
        assert(m@.subrange(from as int, n as int) =~= rest);
        assert(string_views(out@.push(last)) =~= string_views(out@).push(last@));
        assert(string_views(out@) + message_fragments(rest) =~= string_views(out@).push(last@));
    }
    out.push(last);
    out
}

fn new_entry(address: &String, value: i64, tag: &String, timestamp: i64) -> (r: Transaction)
    ensures
        r.address == *address,
        r.value == value,
        r.tag == *tag,
        r.timestamp == timestamp,
{
    Transaction {
        address: address.clone(),
        value,
        tag: tag.clone(),
        timestamp,
        current_index: 0,
        last_index: 0,
        bundle: String::new(),
        signature_fragments: String::new(),
    }
}

/// Appends `count` entries to `address` that share a tag and a timestamp,
/// the value on the first, each paired with its fragment.
fn add_entries(
    entries: &mut Vec<Transaction>,
    fragments: &mut Vec<String>,
    frags: &Vec<String>,
    address: &String,
    value: i64,
    tag: &String,
    timestamp: i64,
)
    requires
        old(entries)@.len() == old(fragments)@.len(),
    ensures
        final(entries)@.len() == final(fragments)@.len(),
        final(entries)@.len() == old(entries)@.len() + frags@.len(),
        forall|k: int|
            0 <= k < old(entries)@.len() ==> #[trigger] final(entries)@[k] == old(entries)@[k]
                && final(fragments)@[k] == old(fragments)@[k],
        forall|k: int|
            0 <= k < frags@.len() ==> {
                let e = #[trigger] final(entries)@[old(entries)@.len() + k];
                &&& e.address == *address
                &&& e.value == if k == 0 {
                    value
                } else {
                    0i64
                }
                &&& e.tag == *tag
                &&& e.timestamp == timestamp
                &&& final(fragments)@[old(entries)@.len() + k] == frags@[k]
            },
        paired(final(entries)@, final(fragments)@) == paired(old(entries)@, old(fragments)@)
            + new_entries(address@, value as int, tag@, frags@),
{
    let ghost start = entries@.len();
    let mut k: usize = 0;
    while k < frags.len()
        invariant
            start == old(entries)@.len(),
            start == old(fragments)@.len(),
            k <= frags@.len(),
            entries@.len() == fragments@.len(),
            entries@.len() == start + k,
            forall|j: int| 0 <= j < start ==> #[trigger] entries@[j] == old(entries)@[j],
            forall|j: int| 0 <= j < start ==> #[trigger] fragments@[j] == old(fragments)@[j],
            forall|j: int|
                0 <= j < k ==> {
                    let e = #[trigger] entries@[start + j];
                    &&& e.address == *address
                    &&& e.value == if j == 0 {
                        value
                    } else {
                        0i64
                    }
                    &&& e.tag == *tag
                    &&& e.timestamp == timestamp
                    &&& fragments@[start + j] == frags@[j]
                },
        decreases frags@.len() - k,
    {
        let v = if k == 0 {
            value
        } else {
            0
        };
        entries.push(new_entry(address, v, tag, timestamp));
        fragments.push(frags[k].clone());
        k = k + 1;
    }
    let ghost now = paired(entries@, fragments@);
    let ghost a = paired(old(entries)@, old(fragments)@);
    let ghost b = new_entries(address@, value as int, tag@, frags@);
    assert forall|j: int| 0 <= j < now.len() implies #[trigger] now[j] == (a + b)[j] by {
        if j >= start {
            let k = j - start;
            assert(entries@[start + k].address == *address);
        }
    }
    assert(now =~= a + b);
}

/// The entries that `add_entries` appends.
pub open spec fn new_entries(
    address: Seq<char>,
    value: int,
    tag: Seq<char>,
    frags: Seq<String>,
) -> Seq<EntryModel> {
    Seq::new(
        frags.len(),
        |k: int|
            (
                address,
                if k == 0 {
                    value
                } else {
                    0
                },
                tag,
                frags[k]@,
            ),
    )
}

/// The entries' addresses, values and tags, paired with their fragments.
pub open spec fn paired(entries: Seq<Transaction>, fragments: Seq<String>) -> Seq<EntryModel> {
    Seq::new(
        entries.len(),
        |k: int| (entries[k].address@, entries[k].value as int, entries[k].tag@, fragments[k]@),
    )
}

fn copies(s: &String, n: usize) -> (r: Vec<String>)
    ensures
        r@.len() == n,
        forall|k: int| 0 <= k < n ==> #[trigger] r@[k] == *s,
{
    let mut out: Vec<String> = Vec::new();
    let mut k: usize = 0;
    while k < n
        invariant
            k <= n,
            out@.len() == k,
            forall|j: int| 0 <= j < k ==> #[trigger] out@[j] == *s,
        decreases n - k,
    {
        out.push(s.clone());
        k = k + 1;
    }
    out
}

/// Numbers the entries, has `bundle_hash` hash them, and returns them with
/// that hash and their fragments filled in.
fn seal<F: Fn(&Vec<Transaction>) -> String>(
    entries: &Vec<Transaction>,
    fragments: &Vec<String>,
    bundle_hash: &F,
) -> (r: Vec<Transaction>)
    requires
        entries@.len() == fragments@.len(),
        entries@.len() > 0,
        forall|v: &Vec<Transaction>| bundle_hash.requires((v,)),
    ensures
        r@.len() == entries@.len(),
        forall|k: int|
            0 <= k < r@.len() ==> (#[trigger] r@[k]).address == entries@[k].address && r@[k].value
                == entries@[k].value && r@[k].tag == entries@[k].tag && r@[k].timestamp
                == entries@[k].timestamp && r@[k].signature_fragments == fragments@[k],
        sealed_by(*bundle_hash, r@),
{
    let n = entries.len();
    let mut indexed: Vec<Transaction> = Vec::new();
    let mut k: usize = 0;
    while k < n
        invariant
            n == entries@.len(),
            k <= n,
            indexed@.len() == k,
            forall|j: int|
                0 <= j < k ==> (#[trigger] indexed@[j]).address == entries@[j].address
                    && indexed@[j].value == entries@[j].value && indexed@[j].tag
                    == entries@[j].tag && indexed@[j].timestamp == entries@[j].timestamp
                    && indexed@[j].current_index == j && indexed@[j].last_index == n - 1,
        decreases n - k,
    {
        let e = &entries[k];
        indexed.push(
            Transaction {
                address: e.address.clone(),
                value: e.value,
                tag: e.tag.clone(),
                timestamp: e.timestamp,
                current_index: k,
                last_index: n - 1,
                bundle: String::new(),
                signature_fragments: String::new(),
            },
        );
        k = k + 1;
    }
    let h = bundle_hash(&indexed);
    let mut out: Vec<Transaction> = Vec::new();
    let mut k: usize = 0;
    while k < n
        invariant
            n == entries@.len(),
            n == indexed@.len(),
            n == fragments@.len(),
            k <= n,
            out@.len() == k,
            forall|j: int|
                0 <= j < k ==> (#[trigger] out@[j]).address == indexed@[j].address && out@[j].value
                    == indexed@[j].value && out@[j].tag == indexed@[j].tag && out@[j].timestamp
                    == indexed@[j].timestamp && out@[j].current_index == indexed@[j].current_index
                    && out@[j].last_index == indexed@[j].last_index && out@[j].bundle == h
                    && out@[j].signature_fragments == fragments@[j],
        decreases n - k,
    {
        let e = &indexed[k];
        out.push(
            Transaction {
                address: e.address.clone(),
                value: e.value,
                tag: e.tag.clone(),
                timestamp: e.timestamp,
                current_index: e.current_index,
                last_index: e.last_index,
                bundle: h.clone(),
                signature_fragments: fragments[k].clone(),
            },
        );
        k = k + 1;
    }
    assert(bundle_hash.ensures((&indexed,), out@[0].bundle));
    out
}

/// Checks a transfer request before any balance is known: both addresses,
/// the transfers, and that they move some value. Returns their total.
pub fn check_transfer_request(address: &str, remainder_address: &str, transfers: &[Transfer]) -> (r:
    Result<i64, MultisigError>)
    requires
        all_valid_transfers(transfers@) ==> total_value(transfers@) <= i64::MAX,
    ensures
        !is_address(address@) ==> (r matches Err(MultisigError::InvalidAddress(s)) && s@
            == address@),
        is_address(address@) && !is_address(remainder_address@) ==> (r matches Err(
            MultisigError::InvalidAddress(s),
        ) && s@ == remainder_address@),
        is_address(address@) && is_address(remainder_address@) && !all_valid_transfers(
            transfers@,
        ) ==> r == Err::<i64, MultisigError>(MultisigError::InvalidTransferSet),
        is_address(address@) && is_address(remainder_address@) && all_valid_transfers(transfers@)
            && total_value(transfers@) == 0 ==> r == Err::<i64, MultisigError>(
            MultisigError::NoSignatureRequired,
        ),
        r is Ok <==> is_address(address@) && is_address(remainder_address@) && all_valid_transfers(
            transfers@,
        ) && total_value(transfers@) != 0,
        r matches Ok(t) ==> t == total_value(transfers@),
{
    if !is_valid_address(address) {
        return Err(MultisigError::InvalidAddress(String::from_str(address)));
    }
    if !is_valid_address(remainder_address) {
        return Err(MultisigError::InvalidAddress(String::from_str(remainder_address)));
    }
    if !transfers_valid(transfers) {
        return Err(MultisigError::InvalidTransferSet);
    }
    let total = sum_values(transfers);
    if total == 0 {
        return Err(MultisigError::NoSignatureRequired);
    }
    Ok(total)
}

/// Builds the unsigned bundle that sends `transfers` out of the multisig
/// `address`, whose cosigners' security levels sum to `security_sum`, given
/// its `balance`. Any funds left go to `remainder_address`; `bundle_hash`
/// computes the bundle's hash from its numbered entries.
pub fn initiate_transfer<F: Fn(&Vec<Transaction>) -> String>(
    security_sum: usize,
    balance: i64,
    address: &str,
    remainder_address: &str,
    transfers: &[Transfer],
    bundle_hash: &F,
) -> (r: Result<Vec<Transaction>, MultisigError>)
    requires
        all_valid_transfers(transfers@) ==> total_value(transfers@) <= i64::MAX,
        forall|v: &Vec<Transaction>| bundle_hash.requires((v,)),
    ensures
        !is_address(address@) ==> (r matches Err(MultisigError::InvalidAddress(s)) && s@
            == address@),
        is_address(address@) && !is_address(remainder_address@) ==> (r matches Err(
            MultisigError::InvalidAddress(s),
        ) && s@ == remainder_address@),
        is_address(address@) && is_address(remainder_address@) && !all_valid_transfers(
            transfers@,
        ) ==> r == Err::<Vec<Transaction>, MultisigError>(MultisigError::InvalidTransferSet),
        is_address(address@) && is_address(remainder_address@) && all_valid_transfers(transfers@)
            && total_value(transfers@) == 0 ==> r == Err::<Vec<Transaction>, MultisigError>(
            MultisigError::NoSignatureRequired,
        ),
        is_address(address@) && is_address(remainder_address@) && all_valid_transfers(transfers@)
            && total_value(transfers@) != 0 && balance < total_value(transfers@) ==> r == Err::<
            Vec<Transaction>,
            MultisigError,
        >(MultisigError::InsufficientBalance),
        r is Ok <==> is_address(address@) && is_address(remainder_address@) && all_valid_transfers(
            transfers@,
        ) && total_value(transfers@) != 0 && balance >= total_value(transfers@),
        r matches Ok(v) ==> v@.map_values(|tx: Transaction| entry_model(tx)) == bundle_layout(
            transfers@,
            security_sum as nat,
            balance as int,
            address@,
            remainder_address@,
        ),
        r matches Ok(v) ==> sealed_by(*bundle_hash, v@),
        r matches Ok(v) ==> stamped_per_transfer(transfers@, transfers@.len() as int, v@),
{
    let total = match check_transfer_request(address, remainder_address, transfers) {
        Ok(t) => t,
        Err(e) => {
            return Err(e);
        },
    };
    if balance < total {
        return Err(MultisigError::InsufficientBalance);
    }
    proof {
        lemma_total_nonneg(transfers@);
    }
    let ghost ts = transfers@;
    let mut entries: Vec<Transaction> = Vec::new();
    let mut fragments: Vec<String> = Vec::new();
    proof {
        reveal_strlit("");
    }
    let mut tag = right_pad("", TAG_LENGTH);
    let mut i: usize = 0;
    assert(ts.take(0) =~= Seq::<Transfer>::empty());
    assert(paired(entries@, fragments@) =~= transfers_entries(ts.take(0)));
    while i < transfers.len()
        invariant
            ts == transfers@,
            i <= ts.len(),
            entries@.len() == fragments@.len(),
            paired(entries@, fragments@) == transfers_entries(ts.take(i as int)),
            tag@ == last_tag(ts.take(i as int)),
            stamped_per_transfer(ts, i as int, entries@),
        decreases ts.len() - i,
    {
        let t = &transfers[i];
        let frags = split_message(t.message.as_str());
        tag = right_pad(tag_of_transfer(t).as_str(), TAG_LENGTH);
        let addr = remove_checksum(t.address.as_str());
        let stamp = now_timestamp();
        let ghost before = paired(entries@, fragments@);
        let ghost old_entries = entries@;
        add_entries(&mut entries, &mut fragments, &frags, &addr, t.value, &tag, stamp);
        proof {
            let p = ts.take(i + 1);
            assert(p.drop_last() =~= ts.take(i as int));
            assert(p.last() == ts[i as int]);
            assert(frags@.len() == message_fragments(t.message@).len());
            assert forall|k: int| 0 <= k < frags@.len() implies #[trigger] frags@[k]@
                == message_fragments(t.message@)[k] by {
                assert(string_views(frags@)[k] == frags@[k]@);
            }
            assert(new_entries(addr@, t.value as int, tag@, frags@) =~= transfer_entries(
                ts[i as int],
            ));
            let base = old_entries.len() as int;
            assert forall|k: int| base <= k < entries@.len() implies (#[trigger] entries@[k]).timestamp
                == stamp by {
                assert(entries@[base + (k - base)].timestamp == stamp);
            }
            lemma_stamp_step(ts, i as int, old_entries, entries@, stamp);
        }
        i = i + 1;
    }
    assert(ts.take(i as int) =~= ts);
    proof {
        reveal_strlit("");
    }
    let nines = right_pad("", MESSAGE_LENGTH);
    assert(nines@ =~= unsigned_fragment());
    let ghost grouped = entries@;
    proof {
        lemma_group_start_monotone(ts, ts.len() as int, ts.len() as int);
    }
    if balance > total {
        let rest_frags = copies(&nines, 1);
        let rest_address = String::from_str(remainder_address);
        add_entries(
            &mut entries,
            &mut fragments,
            &rest_frags,
            &rest_address,
            balance - total,
            &tag,
            now_timestamp(),
        );
        assert(new_entries(rest_address@, balance - total, tag@, rest_frags@) =~= seq![
            (remainder_address@, balance - total, last_tag(ts), unsigned_fragment()),
        ]);
        proof {
            lemma_stamp_keep(ts, ts.len() as int, grouped, entries@);
        }
    }
    let ghost grouped = entries@;
    let input_frags = copies(&nines, security_sum);
    let owner = String::from_str(address);
    add_entries(&mut entries, &mut fragments, &input_frags, &owner, -balance, &tag, now_timestamp());
    let ghost input = Seq::new(
        security_sum as nat,
        |k: int|
            (
                address@,
                if k == 0 {
                    -balance
                } else {
                    0
                },
                last_tag(ts),
                unsigned_fragment(),
            ),
    );
    assert(new_entries(owner@, -balance, tag@, input_frags@) =~= input);
    assert(paired(entries@, fragments@) =~= bundle_layout(
        ts,
        security_sum as nat,
        balance as int,
        address@,
        remainder_address@,
    ));
    proof {
        lemma_entries_nonempty(ts);
        lemma_stamp_keep(ts, ts.len() as int, grouped, entries@);
    }
    let out = seal(&entries, &fragments, bundle_hash);
    proof {
        lemma_stamp_keep(ts, ts.len() as int, entries@, out@);
    }
    assert(out@.map_values(|tx: Transaction| entry_model(tx)) =~= paired(entries@, fragments@));
    Ok(out)
}

proof fn lemma_entries_nonempty(ts: Seq<Transfer>)
    requires
        total_value(ts) != 0,
    ensures
        transfers_entries(ts).len() > 0,
    decreases ts.len(),
{
    if ts.len() > 0 {
        let m = ts.last().message@;
        if m.len() > MESSAGE_LENGTH {
            assert(message_fragments(m).len() > 0);
        }
        assert(transfer_entries(ts.last()).len() > 0);
    }
}

/// After the transfers' entries, a balance equal to the total adds only the
/// input entries; a balance that exceeds it by `k` adds exactly one entry
/// before them, which sends `k` to the remainder address.
pub proof fn lemma_balance_boundary(
    ts: Seq<Transfer>,
    security_sum: nat,
    balance: int,
    address: Seq<char>,
    remainder: Seq<char>,
)
    requires
        balance >= total_value(ts),
    ensures
        ({
            let l = bundle_layout(ts, security_sum, balance, address, remainder);
            let t = transfers_entries(ts).len() as int;
            let extra = if balance > total_value(ts) {
                1int
            } else {
                0int
            };
            &&& l.len() == t + extra + security_sum
            &&& l.subrange(0, t) == transfers_entries(ts)
            &&& balance > total_value(ts) ==> l[t] == (
                remainder,
                balance - total_value(ts),
                last_tag(ts),
                unsigned_fragment(),
            )
            &&& forall|k: int|
                t + extra <= k < l.len() ==> (#[trigger] l[k]).0 == address && l[k].3
                    == unsigned_fragment()
        }),
{
    let l = bundle_layout(ts, security_sum, balance, address, remainder);
    let t = transfers_entries(ts).len() as int;
    assert(l.subrange(0, t) =~= transfers_entries(ts));
}

/// A message takes one fragment per started 2187 trytes, and at least one;
/// every fragment is 2187 trytes long, and the last one is the rest of the
/// message right-padded with `9`.
pub proof fn lemma_message_fragments(m: Seq<char>)
    ensures
        message_fragments(m).len() == if m.len() == 0 {
            1
        } else {
            (m.len() + MESSAGE_LENGTH - 1) / MESSAGE_LENGTH as int
        },
        forall|k: int|
            0 <= k < message_fragments(m).len() ==> (#[trigger] message_fragments(m)[k]).len()
                == MESSAGE_LENGTH,
        (message_fragments(m).len() - 1) * MESSAGE_LENGTH <= m.len(),
        message_fragments(m).last() == pad_nines(
            m.skip((message_fragments(m).len() - 1) * MESSAGE_LENGTH),
            MESSAGE_LENGTH as nat,
        ),
    decreases m.len(),
{
    if m.len() <= MESSAGE_LENGTH {
        assert(m.skip(0) =~= m);
    } else {
        let rest = m.skip(MESSAGE_LENGTH as int);
        lemma_message_fragments(rest);
        let f = message_fragments(m);
        let g = message_fragments(rest);
        assert(f =~= seq![m.take(MESSAGE_LENGTH as int)] + g);
        assert forall|k: int| 0 <= k < f.len() implies (#[trigger] f[k]).len() == MESSAGE_LENGTH by {
            if k > 0 {
                assert(f[k] == g[k - 1]);
            }
        }
        let q = g.len() - 1;
        assert((f.len() - 1) * MESSAGE_LENGTH == q * MESSAGE_LENGTH + MESSAGE_LENGTH)
            by (nonlinear_arith)
            requires
                f.len() == g.len() + 1,
                q == g.len() - 1,
        ;
        assert(rest.skip(q * MESSAGE_LENGTH) =~= m.skip((f.len() - 1) * MESSAGE_LENGTH));
        let a = m.len() as int;
        assert((a + MESSAGE_LENGTH - 1) / MESSAGE_LENGTH as int == (a - MESSAGE_LENGTH
            + MESSAGE_LENGTH - 1) / MESSAGE_LENGTH as int + 1) by (nonlinear_arith)
            requires
                a > MESSAGE_LENGTH,
        ;
    }
}

} // verus!
