//! Cosigners' keys and digests, and filling in one cosigner's signature
//! fragments of a multisig input.
use vstd::prelude::*;
use crate::bundle::{is_nine_trytes, is_nines, Bundle, Transaction, MESSAGE_LENGTH};
use crate::error::MultisigError;
use crate::trits::{
    all_trits, all_trytes, decode, encode, fit, lemma_decode_len, trits_from_trytes,
    trits_with_length, trytes_from_trits,
};

verus! {

/// Trits in one key fragment: 27 chunks of 243.
pub const FRAGMENT_TRITS: usize = 6561;

/// Values in one chunk of the normalized bundle hash.
pub const CHUNK_LENGTH: usize = 27;

/// Values in a normalized bundle hash: three chunks.
pub const NORMALIZED_LENGTH: usize = 81;

/// An entry of `address` whose fragment is still the unsigned sentinel.
pub open spec fn is_unsigned_input(tx: Transaction, address: Seq<char>) -> bool {
    tx.address@ == address && is_nines(tx.signature_fragments@)
}

/// Entry `i` is the first unsigned entry of `address`.
pub open spec fn is_target(e: Seq<Transaction>, address: Seq<char>, i: int) -> bool {
    &&& 0 <= i < e.len()
    &&& is_unsigned_input(e[i], address)
    &&& forall|k: int| 0 <= k < i ==> !is_unsigned_input(#[trigger] e[k], address)
}

/// No entry of `address` is still unsigned.
pub open spec fn fully_signed(e: Seq<Transaction>, address: Seq<char>) -> bool {
    forall|k: int| 0 <= k < e.len() ==> !is_unsigned_input(#[trigger] e[k], address)
}

/// How many of the first `i` entries belong to `address` and are signed.
pub open spec fn signed_count(e: Seq<Transaction>, address: Seq<char>, i: int) -> nat
    decreases i,
{
    if i <= 0 {
        0
    } else {
        signed_count(e, address, i - 1) + if e[i - 1].address@ == address && !is_nines(
            e[i - 1].signature_fragments@,
        ) {
            1nat
        } else {
            0nat
        }
    }
}

/// The security level of a key: its length in whole fragments.
pub open spec fn key_security(key: Seq<char>) -> int {
    key.len() as int / (MESSAGE_LENGTH as int)
}

/// The two entries differ at most in their fragment.
pub open spec fn same_but_fragment(a: Transaction, b: Transaction) -> bool {
    &&& a.address == b.address
    &&& a.value == b.value
    &&& a.tag == b.tag
    &&& a.timestamp == b.timestamp
    &&& a.current_index == b.current_index
    &&& a.last_index == b.last_index
    &&& a.bundle == b.bundle
}

/// `frag` is the tryte form of what `sign` returned for this hash chunk and key fragment.
pub open spec fn signed_by<S: Fn(&Vec<i8>, &Vec<i8>) -> Vec<i8>>(
    sign: S,
    chunk: Seq<i8>,
    key_fragment: Seq<i8>,
    frag: Seq<char>,
) -> bool {
    exists|c: &Vec<i8>, k: &Vec<i8>, r: Vec<i8>|
        #[trigger] sign.ensures((c, k), r) && c@ == chunk && k@ == key_fragment && frag == encode(
            r@,
        )
}

/// The chunk of the normalized hash that fragment `j` of a group signs, when
/// `signed` fragments of the input were signed before the group.
pub open spec fn rotated_chunk(normalized: Seq<i8>, signed: int, j: int) -> Seq<i8> {
    let c = (signed + j) % 3;
    normalized.subrange(c * CHUNK_LENGTH, (c + 1) * CHUNK_LENGTH)
}

/// The `j`-th fragment of a key.
pub open spec fn key_fragment(key_trits: Seq<i8>, j: int) -> Seq<i8> {
    key_trits.subrange(j * FRAGMENT_TRITS, (j + 1) * FRAGMENT_TRITS)
}

/// `after` is `before` with the `security` entries from `i` on signed with
/// `key`, fragment `j` against the rotated chunk of the normalized hash.
pub open spec fn group_signed<
    N: Fn(&String) -> Vec<i8>,
    S: Fn(&Vec<i8>, &Vec<i8>) -> Vec<i8>,
>(
    normalize: N,
    sign: S,
    before: Seq<Transaction>,
    after: Seq<Transaction>,
    address: Seq<char>,
    i: int,
    security: int,
    key: Seq<char>,
) -> bool {
    &&& after.len() == before.len()
    &&& forall|k: int|
        0 <= k < before.len() && !(i <= k < i + security) ==> #[trigger] after[k] == before[k]
    &&& forall|k: int| i <= k < i + security ==> same_but_fragment(#[trigger] after[k], before[k])
    &&& exists|n: Vec<i8>|
        #[trigger] normalize.ensures((&before[i].bundle,), n) && forall|j: int|
            0 <= j < security ==> signed_by(
                sign,
                rotated_chunk(n@, signed_count(before, address, i) as int, j),
                key_fragment(decode(key), j),
                (#[trigger] after[i + j]).signature_fragments@,
            )
}

fn replace_fragment(tx: &Transaction, frag: String) -> (r: Transaction)
    ensures
        same_but_fragment(r, *tx),
        r.signature_fragments == frag,
{
    Transaction {
        address: tx.address.clone(),
        value: tx.value,
        tag: tx.tag.clone(),
        timestamp: tx.timestamp,
        current_index: tx.current_index,
        last_index: tx.last_index,
        bundle: tx.bundle.clone(),
        signature_fragments: frag,
    }
}

fn copy_range(v: &Vec<i8>, from: usize, to: usize) -> (r: Vec<i8>)
    requires
        from <= to <= v@.len(),
    ensures
        r@ == v@.subrange(from as int, to as int),
{
    let mut out: Vec<i8> = Vec::new();
    let mut k: usize = from;
    while k < to
        invariant
            from <= k <= to,
            to <= v@.len(),
            out@ == v@.subrange(from as int, k as int),
        decreases to - k,
    {
        out.push(v[k]);
        k = k + 1;
        assert(out@ =~= v@.subrange(from as int, k as int));
    }
    out
}

/// Fills in one cosigner's signature fragments: the first entry of
/// `input_address` that is still unsigned, and the entries after it up to the
/// key's security level, each signed by `sign` with the next fragment of `key`
/// against a chunk of the bundle's hash as normalized by `normalize`. The
/// chunks rotate with the number of the input's fragments already signed.
/// Where every entry of the address is signed, nothing changes.
pub fn add_signature<N: Fn(&String) -> Vec<i8>, S: Fn(&Vec<i8>, &Vec<i8>) -> Vec<i8>>(
    bundle_to_sign: &mut Bundle,
    input_address: &str,
    key: &str,
    normalize: &N,
    sign: &S,
) -> (r: Result<(), MultisigError>)
    requires
        forall|h: &String| normalize.requires((h,)),
        forall|h: &String, n: Vec<i8>| #[trigger]
            normalize.ensures((h,), n) ==> n@.len() == NORMALIZED_LENGTH,
        forall|c: &Vec<i8>, k: &Vec<i8>| sign.requires((c, k)),
        forall|c: &Vec<i8>, k: &Vec<i8>, s: Vec<i8>| #[trigger]
            sign.ensures((c, k), s) ==> all_trits(s@) && s@.len() % 3 == 0,
    ensures
        !(all_trytes(key@) && key_security(key@) >= 1) ==> r == Err::<(), MultisigError>(
            MultisigError::MalformedState,
        ),
        r is Err ==> *final(bundle_to_sign) == *old(bundle_to_sign) && r == Err::<
            (),
            MultisigError,
        >(MultisigError::MalformedState),
        all_trytes(key@) && key_security(key@) >= 1 && fully_signed(
            old(bundle_to_sign).entries@,
            input_address@,
        ) ==> r is Ok && *final(bundle_to_sign) == *old(bundle_to_sign),
        forall|i: int|
            #![trigger is_target(old(bundle_to_sign).entries@, input_address@, i)]
            all_trytes(key@) && key_security(key@) >= 1 && is_target(
                old(bundle_to_sign).entries@,
                input_address@,
                i,
            ) ==> if i + key_security(key@) <= old(bundle_to_sign).entries@.len() {
                r is Ok && group_signed(
                    *normalize,
                    *sign,
                    old(bundle_to_sign).entries@,
                    final(bundle_to_sign).entries@,
                    input_address@,
                    i,
                    key_security(key@),
                    key@,
                )
            } else {
                r is Err
            },
{
    let key_trits = match trits_from_trytes(key) {
        Some(k) => k,
        None => {
            return Err(MultisigError::MalformedState);
        },
    };
    let security = key.unicode_len() / MESSAGE_LENGTH;
    if security == 0 {
        return Err(MultisigError::MalformedState);
    }
    proof {
        lemma_decode_len(key@);
    }
    let ghost e = bundle_to_sign.entries@;
    let address = String::from_str(input_address);
    let n = bundle_to_sign.entries.len();
    let mut signed: usize = 0;
    let mut i: usize = 0;
    while i < n
        invariant
            n == e.len(),
            e == bundle_to_sign.entries@,
            address@ == input_address@,
            key_trits@ == decode(key@),
            key_trits@.len() == 3 * key@.len(),
            security == key_security(key@),
            security >= 1,
            all_trytes(key@),
            forall|h: &String| normalize.requires((h,)),
            forall|h: &String, m: Vec<i8>| #[trigger]
                normalize.ensures((h,), m) ==> m@.len() == NORMALIZED_LENGTH,
            forall|c: &Vec<i8>, k: &Vec<i8>| sign.requires((c, k)),
            forall|c: &Vec<i8>, k: &Vec<i8>, s: Vec<i8>| #[trigger]
                sign.ensures((c, k), s) ==> all_trits(s@) && s@.len() % 3 == 0,
            *bundle_to_sign == *old(bundle_to_sign),
            i <= n,
            signed == signed_count(e, input_address@, i as int),
            signed <= i,
            forall|k: int| 0 <= k < i ==> !is_unsigned_input(#[trigger] e[k], input_address@),
        decreases n - i,
    {
        if bundle_to_sign.entries[i].address.eq(&address) {
            if !is_nine_trytes(bundle_to_sign.entries[i].signature_fragments.as_str()) {
                signed = signed + 1;
            } else {
                assert(is_target(e, input_address@, i as int));
                if security > n - i {
                    return Err(MultisigError::MalformedState);
                }
                let normalized = normalize(&bundle_to_sign.entries[i].bundle);
                let kt_len = key_trits.len();
                let mut j: usize = 0;
                while j < security
                    invariant
                        n == e.len(),
                        i + security <= n,
                        j <= security,
                        security == key_security(key@),
                        all_trytes(key@),
                        key_trits@ == decode(key@),
                        key_trits@.len() == 3 * key@.len(),
                        normalized@.len() == NORMALIZED_LENGTH,
                        normalize.ensures((&e[i as int].bundle,), normalized),
                        bundle_to_sign.entries@.len() == n,
                        signed == signed_count(e, input_address@, i as int),
                        signed <= i,
                        kt_len == key_trits@.len(),
                        forall|c: &Vec<i8>, k: &Vec<i8>, s: Vec<i8>| #[trigger]
                            sign.ensures((c, k), s) ==> all_trits(s@) && s@.len() % 3 == 0,
                        forall|c: &Vec<i8>, k: &Vec<i8>| sign.requires((c, k)),
                        forall|k: int|
                            0 <= k < n && !(i <= k < i + j) ==> #[trigger] bundle_to_sign.entries@[k]
                                == e[k],
                        forall|k: int|
                            i <= k < i + j ==> same_but_fragment(
                                #[trigger] bundle_to_sign.entries@[k],
                                e[k],
                            ),
                        forall|t: int|
                            0 <= t < j ==> signed_by(
                                *sign,
                                rotated_chunk(normalized@, signed as int, t),
                                key_fragment(decode(key@), t),
                                (#[trigger] bundle_to_sign.entries@[i + t]).signature_fragments@,
                            ),
                    decreases security - j,
                {
                    let c = (signed + j) % 3;
                    let chunk = copy_range(&normalized, c * CHUNK_LENGTH, (c + 1) * CHUNK_LENGTH);
                    assert(3 * key@.len() >= (j + 1) * FRAGMENT_TRITS) by (nonlinear_arith)
                        requires
                            j < security,
                            security == key@.len() / 2187,
                            FRAGMENT_TRITS == 6561,
                    ;
                    let kf = copy_range(&key_trits, j * FRAGMENT_TRITS, (j + 1) * FRAGMENT_TRITS);
                    let s = sign(&chunk, &kf);
                    let frag = trytes_from_trits(s.as_slice());
                    let updated = replace_fragment(&bundle_to_sign.entries[i + j], frag);
                    bundle_to_sign.entries.set(i + j, updated);
                    proof {
                        assert(signed_by(
                            *sign,
                            rotated_chunk(normalized@, signed as int, j as int),
                            key_fragment(decode(key@), j as int),
                            bundle_to_sign.entries@[i + j].signature_fragments@,
                        ));
                    }
                    j = j + 1;
                }
                return Ok(());
            }
        }
        i = i + 1;
    }
    Ok(())
}

/// How many entries of `address` are still unsigned.
pub open spec fn unsigned_count(e: Seq<Transaction>, address: Seq<char>) -> nat
    decreases e.len(),
{
    if e.len() == 0 {
        0
    } else {
        unsigned_count(e.drop_last(), address) + if is_unsigned_input(e.last(), address) {
            1nat
        } else {
            0nat
        }
    }
}

/// How many of the first `n` entries lie in the group of `security` entries from `i`.
pub open spec fn group_overlap(n: int, i: int, security: int) -> int {
    if n <= i {
        0
    } else if n >= i + security {
        security
    } else {
        n - i
    }
}

proof fn lemma_count_group(
    before: Seq<Transaction>,
    after: Seq<Transaction>,
    address: Seq<char>,
    i: int,
    security: int,
    n: int,
)
    requires
        0 <= n <= before.len(),
        after.len() == before.len(),
        0 <= i,
        0 <= security,
        i + security <= before.len(),
        forall|k: int|
            0 <= k < before.len() && !(i <= k < i + security) ==> (is_unsigned_input(
                #[trigger] after[k],
                address,
            ) == is_unsigned_input(before[k], address)),
        forall|k: int|
            i <= k < i + security ==> is_unsigned_input(#[trigger] before[k], address)
                && !is_unsigned_input(after[k], address),
    ensures
        unsigned_count(after.take(n), address) + group_overlap(n, i, security) == unsigned_count(
            before.take(n),
            address,
        ),
    decreases n,
{
    if n > 0 {
        lemma_count_group(before, after, address, i, security, n - 1);
        assert(after.take(n).drop_last() =~= after.take(n - 1));
        assert(before.take(n).drop_last() =~= before.take(n - 1));
        assert(after.take(n).last() == after[n - 1]);
        assert(before.take(n).last() == before[n - 1]);
    } else {
        assert(after.take(0) =~= Seq::<Transaction>::empty());
        assert(before.take(0) =~= Seq::<Transaction>::empty());
    }
}

proof fn lemma_group_left_signed<
    N: Fn(&String) -> Vec<i8>,
    S: Fn(&Vec<i8>, &Vec<i8>) -> Vec<i8>,
>(
    normalize: N,
    sign: S,
    before: Seq<Transaction>,
    after: Seq<Transaction>,
    address: Seq<char>,
    i: int,
    key: Seq<char>,
)
    requires
        forall|c: &Vec<i8>, k: &Vec<i8>, r: Vec<i8>| #[trigger]
            sign.ensures((c, k), r) ==> !is_nines(encode(r@)),
        group_signed(normalize, sign, before, after, address, i, key_security(key), key),
    ensures
        forall|k: int|
            i <= k < i + key_security(key) ==> !is_unsigned_input(#[trigger] after[k], address),
{
    let security = key_security(key);
    assert forall|k: int| i <= k < i + security implies !is_unsigned_input(
        #[trigger] after[k],
        address,
    ) by {
        let n = choose|n: Vec<i8>| #[trigger] normalize.ensures((&before[i].bundle,), n) && forall|j: int|
            0 <= j < security ==> signed_by(
                sign,
                rotated_chunk(n@, signed_count(before, address, i) as int, j),
                key_fragment(decode(key), j),
                (#[trigger] after[i + j]).signature_fragments@,
            );
        let j = k - i;
        assert(after[i + j] == after[k]);
        assert(signed_by(
            sign,
            rotated_chunk(n@, signed_count(before, address, i) as int, j),
            key_fragment(decode(key), j),
            after[i + j].signature_fragments@,
        ));
    }
}

/// The unsigned entries of `address` are exactly those from `p` up to `q`.
pub open spec fn unsigned_block(e: Seq<Transaction>, address: Seq<char>, p: int, q: int) -> bool {
    &&& 0 <= p <= q <= e.len()
    &&& forall|k: int|
        0 <= k < e.len() ==> (is_unsigned_input(#[trigger] e[k], address) <==> p <= k < q)
}

/// Where the unsigned entries of the input form one block, a signing call
/// signs the first entries of the block, as many as the key's security level,
/// and leaves the rest of the block unsigned; once the block is empty, the
/// input is fully signed and a further call changes nothing.
pub proof fn lemma_signing_advances_block<
    N: Fn(&String) -> Vec<i8>,
    S: Fn(&Vec<i8>, &Vec<i8>) -> Vec<i8>,
>(
    normalize: N,
    sign: S,
    before: Seq<Transaction>,
    after: Seq<Transaction>,
    address: Seq<char>,
    p: int,
    q: int,
    key: Seq<char>,
)
    requires
        unsigned_block(before, address, p, q),
        p < q,
        1 <= key_security(key) <= q - p,
        forall|c: &Vec<i8>, k: &Vec<i8>, r: Vec<i8>| #[trigger]
            sign.ensures((c, k), r) ==> !is_nines(encode(r@)),
        group_signed(normalize, sign, before, after, address, p, key_security(key), key),
    ensures
        is_target(before, address, p),
        unsigned_block(after, address, p + key_security(key), q),
        p + key_security(key) == q ==> fully_signed(after, address),
{
    lemma_group_left_signed(normalize, sign, before, after, address, p, key);
    let s = key_security(key);
    assert forall|k: int| 0 <= k < after.len() implies (is_unsigned_input(
        #[trigger] after[k],
        address,
    ) <==> p + s <= k < q) by {
        if !(p <= k < p + s) {
            assert(after[k] == before[k]);
        }
    }
}

/// A signing call that finds `security` unsigned entries of the input from its
/// target on signs exactly those, provided the signer never hands back the
/// sentinel: the input then has `security` fewer unsigned entries.
pub proof fn lemma_signing_consumes_group<
    N: Fn(&String) -> Vec<i8>,
    S: Fn(&Vec<i8>, &Vec<i8>) -> Vec<i8>,
>(
    normalize: N,
    sign: S,
    before: Seq<Transaction>,
    after: Seq<Transaction>,
    address: Seq<char>,
    i: int,
    key: Seq<char>,
)
    requires
        is_target(before, address, i),
        i + key_security(key) <= before.len(),
        key_security(key) >= 1,
        forall|k: int|
            i <= k < i + key_security(key) ==> is_unsigned_input(#[trigger] before[k], address),
        forall|c: &Vec<i8>, k: &Vec<i8>, r: Vec<i8>| #[trigger]
            sign.ensures((c, k), r) ==> !is_nines(encode(r@)),
        group_signed(normalize, sign, before, after, address, i, key_security(key), key),
    ensures
        unsigned_count(after, address) + key_security(key) == unsigned_count(before, address),
{
    let security = key_security(key);
    lemma_group_left_signed(normalize, sign, before, after, address, i, key);
    lemma_count_group(before, after, address, i, security, before.len() as int);
    assert(before.take(before.len() as int) =~= before);
    assert(after.take(before.len() as int) =~= after);
}

/// A security level that keys and digests can have.
pub open spec fn is_security_level(security: usize) -> bool {
    1 <= security <= 3
}

/// `key` is the tryte form of what `key_gen` returned for the seed's trits
/// fitted to `len`, the index and the security level.
pub open spec fn derived_by<K: Fn(&Vec<i8>, usize, usize) -> Vec<i8>>(
    key_gen: K,
    seed: Seq<char>,
    len: nat,
    index: usize,
    security: usize,
    key: Vec<i8>,
) -> bool {
    exists|s: &Vec<i8>| #[trigger] key_gen.ensures((s, index, security), key) && s@ == fit(decode(seed), len)
}

/// The private key for `seed` at `index` with `security` fragments, derived by
/// `key_gen` from the seed's trits fitted to 81 trits per security level.
pub fn get_key<K: Fn(&Vec<i8>, usize, usize) -> Vec<i8>>(
    seed: &str,
    index: usize,
    security: usize,
    key_gen: &K,
) -> (r: Result<String, MultisigError>)
    requires
        forall|s: &Vec<i8>, i: usize, l: usize| key_gen.requires((s, i, l)),
        forall|s: &Vec<i8>, i: usize, l: usize, k: Vec<i8>| #[trigger]
            key_gen.ensures((s, i, l), k) ==> all_trits(k@) && k@.len() % 3 == 0,
    ensures
        !is_security_level(security) ==> r == Err::<String, MultisigError>(
            MultisigError::InvalidSecurityLevel(security),
        ),
        is_security_level(security) && !all_trytes(seed@) ==> r == Err::<String, MultisigError>(
            MultisigError::MalformedState,
        ),
        r is Ok <==> is_security_level(security) && all_trytes(seed@),
        r matches Ok(k) ==> exists|t: Vec<i8>|
            derived_by(*key_gen, seed@, (81 * security) as nat, index, security, t) && k@
                == encode(#[trigger] t@),
{
    if security < 1 || security > 3 {
        return Err(MultisigError::InvalidSecurityLevel(security));
    }
    let seed_trits = match trits_with_length(seed, 81 * security) {
        Some(t) => t,
        None => {
            return Err(MultisigError::MalformedState);
        },
    };
    let key = key_gen(&seed_trits, index, security);
    let out = trytes_from_trits(key.as_slice());
    assert(derived_by(*key_gen, seed@, (81 * security) as nat, index, security, key));
    Ok(out)
}

/// The digest for `seed` at `index` and `security`: the key that `key_gen`
/// derives from the seed's trits fitted to one hash (243 trits), hashed into
/// its digest by `digests`.
pub fn get_digest<K: Fn(&Vec<i8>, usize, usize) -> Vec<i8>, D: Fn(&Vec<i8>) -> Vec<i8>>(
    seed: &str,
    index: usize,
    security: usize,
    key_gen: &K,
    digests: &D,
) -> (r: Result<String, MultisigError>)
    requires
        forall|s: &Vec<i8>, i: usize, l: usize| key_gen.requires((s, i, l)),
        forall|k: &Vec<i8>| digests.requires((k,)),
        forall|k: &Vec<i8>, d: Vec<i8>| #[trigger]
            digests.ensures((k,), d) ==> all_trits(d@) && d@.len() % 3 == 0,
    ensures
        !is_security_level(security) ==> r == Err::<String, MultisigError>(
            MultisigError::InvalidSecurityLevel(security),
        ),
        is_security_level(security) && !all_trytes(seed@) ==> r == Err::<String, MultisigError>(
            MultisigError::MalformedState,
        ),
        r is Ok <==> is_security_level(security) && all_trytes(seed@),
        r matches Ok(d) ==> exists|key: Vec<i8>, h: Vec<i8>|
            #![trigger digests.ensures((&key,), h)]
            derived_by(*key_gen, seed@, 243, index, security, key) && digests.ensures((&key,), h)
                && d@ == encode(h@),
{
    if security < 1 || security > 3 {
        return Err(MultisigError::InvalidSecurityLevel(security));
    }
    let seed_trits = match trits_with_length(seed, 243) {
        Some(t) => t,
        None => {
            return Err(MultisigError::MalformedState);
        },
    };
    let key = key_gen(&seed_trits, index, security);
    assert(derived_by(*key_gen, seed@, 243, index, security, key));
    let digest = digests(&key);
    let out = trytes_from_trits(digest.as_slice());
    Ok(out)
}

} // verus!
