//! Bundle entries, transfer requests and the checks on their fields.
use vstd::prelude::*;
use crate::trits::{all_trytes, is_tryte, push_char, tryte_to_value};

verus! {

/// Width in trytes of one signature or message fragment.
pub const MESSAGE_LENGTH: usize = 2187;

/// Width in trytes of an address without its checksum.
pub const ADDRESS_LENGTH: usize = 81;

/// Width in trytes of an address followed by its checksum.
pub const ADDRESS_WITH_CHECKSUM_LENGTH: usize = 90;

/// Width in trytes of a tag.
pub const TAG_LENGTH: usize = 27;

/// One entry of a bundle.
#[derive(Debug, Clone, PartialEq, Eq, Default)]
pub struct Transaction {
    pub address: String,
    pub value: i64,
    pub tag: String,
    pub timestamp: i64,
    pub current_index: usize,
    pub last_index: usize,
    /// The hash of the whole bundle, the same in every entry.
    pub bundle: String,
    /// A message fragment, a signature fragment, or the unsigned sentinel.
    pub signature_fragments: String,
}

/// An ordered sequence of entries.
#[derive(Debug, Clone, PartialEq, Eq, Default)]
pub struct Bundle {
    pub entries: Vec<Transaction>,
}

/// A requested transfer of `value` to `address`, with an optional message and tag.
#[derive(Debug, Clone, PartialEq, Eq, Default)]
pub struct Transfer {
    pub address: String,
    pub value: i64,
    pub message: String,
    pub tag: Option<String>,
}

/// An address of 81 trytes, or of 90 with its checksum.
pub open spec fn is_address(s: Seq<char>) -> bool {
    (s.len() == ADDRESS_LENGTH || s.len() == ADDRESS_WITH_CHECKSUM_LENGTH) && all_trytes(s)
}

/// The address without its checksum.
pub open spec fn strip_checksum(s: Seq<char>) -> Seq<char> {
    if s.len() == ADDRESS_WITH_CHECKSUM_LENGTH {
        s.take(ADDRESS_LENGTH as int)
    } else {
        s
    }
}

/// `s` right-padded with the null symbol `9` up to `n` symbols.
pub open spec fn pad_nines(s: Seq<char>, n: nat) -> Seq<char> {
    if s.len() >= n {
        s
    } else {
        s + Seq::new((n - s.len()) as nat, |i: int| '9')
    }
}

/// The unsigned sentinel: a fragment of null symbols only.
pub open spec fn is_nines(s: Seq<char>) -> bool {
    forall|i: int| 0 <= i < s.len() ==> #[trigger] s[i] == '9'
}

/// The sentinel that marks a fragment slot as not yet filled.
pub open spec fn unsigned_fragment() -> Seq<char> {
    Seq::new(MESSAGE_LENGTH as nat, |i: int| '9')
}

/// The tag of a transfer, or the empty tag.
pub open spec fn tag_of(t: Transfer) -> Seq<char> {
    match t.tag {
        Some(s) => s@,
        None => Seq::empty(),
    }
}

/// A transfer that a bundle can carry.
pub open spec fn is_valid_transfer(t: Transfer) -> bool {
    &&& is_address(strip_checksum(t.address@))
    &&& t.value >= 0
    &&& all_trytes(t.message@)
    &&& all_trytes(tag_of(t))
    &&& tag_of(t).len() <= TAG_LENGTH
}

/// Whether every character of `s` is a tryte.
pub fn is_trytes(s: &str) -> (r: bool)
    ensures
        r == all_trytes(s@),
{
    let n = s.unicode_len();
    let mut i: usize = 0;
    while i < n
        invariant
            n == s@.len(),
            i <= n,
            forall|j: int| 0 <= j < i ==> is_tryte(#[trigger] s@[j]),
        decreases n - i,
    {
        if tryte_to_value(s.get_char(i)).is_none() {
            return false;
        }
        i = i + 1;
    }
    true
}

/// Whether `s` is an address of 81 trytes, or of 90 with its checksum.
pub fn is_valid_address(s: &str) -> (r: bool)
    ensures
        r == is_address(s@),
{
    let n = s.unicode_len();
    (n == ADDRESS_LENGTH || n == ADDRESS_WITH_CHECKSUM_LENGTH) && is_trytes(s)
}

/// The address without its checksum.
pub fn remove_checksum(s: &str) -> (r: String)
    ensures
        r@ == strip_checksum(s@),
{
    if s.unicode_len() == ADDRESS_WITH_CHECKSUM_LENGTH {
        String::from_str(s.substring_char(0, ADDRESS_LENGTH))
    } else {
        String::from_str(s)
    }
}

/// `s` right-padded with `9` up to `n` symbols.
pub fn right_pad(s: &str, n: usize) -> (r: String)
    ensures
        r@ == pad_nines(s@, n as nat),
{
    let mut out = String::from_str(s);
    let mut k = s.unicode_len();
    while k < n
        invariant
            k <= n || k == s@.len(),
            k >= s@.len(),
            out@ == s@ + Seq::new((k - s@.len()) as nat, |i: int| '9'),
        decreases n - k,
    {
        push_char(&mut out, '9');
        k = k + 1;
        assert(out@ =~= s@ + Seq::new((k - s@.len()) as nat, |i: int| '9'));
    }
    assert(s@.len() < n ==> out@ =~= pad_nines(s@, n as nat));
    assert(s@.len() >= n ==> out@ =~= s@);
    out
}

/// Whether `s` holds the null symbol only.
pub fn is_nine_trytes(s: &str) -> (r: bool)
    ensures
        r == is_nines(s@),
{
    let n = s.unicode_len();
    let mut i: usize = 0;
    while i < n
        invariant
            n == s@.len(),
            i <= n,
            forall|j: int| 0 <= j < i ==> #[trigger] s@[j] == '9',
        decreases n - i,
    {
        if s.get_char(i) != '9' {
            return false;
        }
        i = i + 1;
    }
    true
}

} // verus!
