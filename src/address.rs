//! Building a multisig address from the cosigners' digests, at once or one
//! digest at a time with the sponge state handed from party to party.
use vstd::prelude::*;
use crate::curl::{
    absorb, absorb_into, is_state, lemma_absorb_state, squeeze, zero_state, HASH_LENGTH,
    STATE_LENGTH,
};
use crate::error::MultisigError;
use crate::trits::{
    all_trytes, decode, encode, fit, lemma_decode_encode, lemma_decode_trits, trits_from_trytes,
    trits_with_length, trytes_from_trits,
};

verus! {

/// The sponge state that a handed-off state string stands for.
pub open spec fn state_of(s: Seq<char>) -> Seq<i8> {
    fit(decode(s), STATE_LENGTH as nat)
}

/// The state string after one more digest is absorbed into `state`.
pub open spec fn hand_off(digest: Seq<char>, state: Seq<char>) -> Seq<char> {
    encode(absorb(state_of(state), decode(digest)))
}

/// The address that a state string is finalized into.
pub open spec fn finalized(state: Seq<char>) -> Seq<char> {
    encode(squeeze(state_of(state)))
}

/// The state string after the digests are handed off one at a time, in order,
/// starting from no state.
pub open spec fn incremental(digests: Seq<Seq<char>>) -> Seq<char>
    decreases digests.len(),
{
    if digests.len() == 0 {
        Seq::empty()
    } else {
        hand_off(digests.last(), incremental(digests.drop_last()))
    }
}

/// The state of one sponge that absorbs the digests in order.
pub open spec fn absorb_all(digests: Seq<Seq<char>>) -> Seq<i8>
    decreases digests.len(),
{
    if digests.len() == 0 {
        zero_state()
    } else {
        absorb(absorb_all(digests.drop_last()), decode(digests.last()))
    }
}

/// The multisig address of the digests in this order.
pub open spec fn address_of(digests: Seq<Seq<char>>) -> Seq<char> {
    encode(squeeze(absorb_all(digests)))
}

pub open spec fn all_digests_trytes(digests: Seq<Seq<char>>) -> bool {
    forall|i: int| 0 <= i < digests.len() ==> all_trytes(#[trigger] digests[i])
}

pub open spec fn string_views(v: Seq<String>) -> Seq<Seq<char>> {
    v.map_values(|s: String| s@)
}

proof fn lemma_absorb_all_state(digests: Seq<Seq<char>>)
    requires
        all_digests_trytes(digests),
    ensures
        is_state(absorb_all(digests)),
    decreases digests.len(),
{
    if digests.len() > 0 {
        let p = digests.drop_last();
        assert(all_digests_trytes(p)) by {
            assert forall|i: int| 0 <= i < p.len() implies all_trytes(#[trigger] p[i]) by {
                assert(p[i] == digests[i]);
            }
        }
        lemma_absorb_all_state(p);
        lemma_decode_trits(digests.last());
        lemma_absorb_state(absorb_all(p), decode(digests.last()));
    }
}

proof fn lemma_state_of_encode(s: Seq<i8>)
    requires
        is_state(s),
    ensures
        state_of(encode(s)) == s,
{
    lemma_decode_encode(s);
    assert(s.take(STATE_LENGTH as int) =~= s);
}

/// Handing the state off digest by digest gives the state of one sponge
/// that absorbs all the digests in the same order.
pub proof fn lemma_incremental_state(digests: Seq<Seq<char>>)
    requires
        all_digests_trytes(digests),
    ensures
        state_of(incremental(digests)) == absorb_all(digests),
    decreases digests.len(),
{
    if digests.len() == 0 {
        assert(decode(Seq::<char>::empty()) =~= Seq::<i8>::empty());
        assert(state_of(Seq::<char>::empty()) =~= zero_state());
    } else {
        let p = digests.drop_last();
        assert(all_digests_trytes(p)) by {
            assert forall|i: int| 0 <= i < p.len() implies all_trytes(#[trigger] p[i]) by {
                assert(p[i] == digests[i]);
            }
        }
        lemma_incremental_state(p);
        lemma_absorb_all_state(digests);
        lemma_state_of_encode(absorb_all(digests));
    }
}

/// Finalizing the state that the digests were handed off into, one at a time,
/// gives the address of one sponge that absorbs them all in the same order.
pub proof fn lemma_incremental_equivalence(digests: Seq<Seq<char>>)
    requires
        all_digests_trytes(digests),
    ensures
        finalized(incremental(digests)) == address_of(digests),
{
    lemma_incremental_state(digests);
}

/// An address finalized from the digests' hand-off validates against those
/// digests in the same order.
pub proof fn lemma_validation_round_trip(digests: Seq<Seq<char>>)
    requires
        all_digests_trytes(digests),
    ensures
        finalized(incremental(digests)) == address_of(digests),
        all_trytes(finalized(incremental(digests))),
{
    lemma_incremental_equivalence(digests);
    lemma_absorb_all_state(digests);
    crate::trits::lemma_encode_trytes(squeeze(absorb_all(digests)));
}

/// Absorbs one digest into a handed-off sponge state and returns the new state.
/// An empty state string stands for the zero state of a fresh sponge.
pub fn add_address_digest(digest_trytes: &str, curl_state_trytes: &str) -> (r: Result<
    String,
    MultisigError,
>)
    ensures
        r is Ok <==> all_trytes(digest_trytes@) && all_trytes(curl_state_trytes@),
        r matches Ok(s) ==> s@ == hand_off(digest_trytes@, curl_state_trytes@),
        r matches Err(e) ==> e == MultisigError::MalformedState,
{
    let digest = match trits_from_trytes(digest_trytes) {
        Some(d) => d,
        None => {
            return Err(MultisigError::MalformedState);
        },
    };
    let mut state = match trits_with_length(curl_state_trytes, STATE_LENGTH) {
        Some(s) => s,
        None => {
            return Err(MultisigError::MalformedState);
        },
    };
    proof {
        lemma_decode_trits(digest_trytes@);
        lemma_decode_trits(curl_state_trytes@);
        let st = state@;
        assert forall|i: int| 0 <= i < st.len() implies crate::trits::is_trit(#[trigger] st[i]) by {
            if i < decode(curl_state_trytes@).len() {
            }
        }
    }
    absorb_into(&mut state, digest.as_slice());
    Ok(trytes_from_trits(state.as_slice()))
}

/// Squeezes the multisig address out of a handed-off sponge state.
pub fn finalize_address(curl_state_trytes: &str) -> (r: Result<String, MultisigError>)
    ensures
        r is Ok <==> all_trytes(curl_state_trytes@),
        r matches Ok(s) ==> s@ == finalized(curl_state_trytes@),
        r matches Err(e) ==> e == MultisigError::MalformedState,
{
    let state = match trits_with_length(curl_state_trytes, STATE_LENGTH) {
        Some(s) => s,
        None => {
            return Err(MultisigError::MalformedState);
        },
    };
    proof {
        lemma_decode_trits(curl_state_trytes@);
    }
    let address = crate::trits::fit_trits(&state, HASH_LENGTH);
    assert(address@ =~= squeeze(state@));
    Ok(trytes_from_trits(address.as_slice()))
}

/// Whether `address` is the multisig address of `digests`, absorbed in the
/// given order into a fresh sponge.
pub fn validate_address(address: &str, digests: &[String]) -> (r: Result<bool, MultisigError>)
    ensures
        r is Ok <==> all_digests_trytes(string_views(digests@)),
        r matches Ok(b) ==> b == (address@ == address_of(string_views(digests@))),
        r matches Err(e) ==> e == MultisigError::MalformedState,
{
    let ghost ds = string_views(digests@);
    let mut state: Vec<i8> = Vec::new();
    let mut k: usize = 0;
    while k < STATE_LENGTH
        invariant
            k <= STATE_LENGTH,
            state@ == zero_state().take(k as int),
        decreases STATE_LENGTH - k,
    {
        state.push(0);
        k = k + 1;
        assert(state@ =~= zero_state().take(k as int));
    }
    assert(zero_state().take(STATE_LENGTH as int) =~= zero_state());
    assert(absorb_all(ds.take(0)) == zero_state());
    let mut i: usize = 0;
    while i < digests.len()
        invariant
            i <= digests@.len(),
            ds == string_views(digests@),
            all_digests_trytes(ds.take(i as int)),
            state@ == absorb_all(ds.take(i as int)),
            is_state(state@),
        decreases digests@.len() - i,
    {
        let digest = match trits_from_trytes(digests[i].as_str()) {
            Some(d) => d,
            None => {
                assert(!all_digests_trytes(ds)) by {
                    assert(ds[i as int] == digests@[i as int]@);
                }
                return Err(MultisigError::MalformedState);
            },
        };
        proof {
            lemma_decode_trits(digests@[i as int]@);
        }
        absorb_into(&mut state, digest.as_slice());
        proof {
            let p = ds.take(i as int + 1);
            assert(p.drop_last() =~= ds.take(i as int));
            assert(p.last() == digests@[i as int]@);
            assert forall|j: int| 0 <= j < p.len() implies all_trytes(#[trigger] p[j]) by {
                if j < i {
                    assert(p[j] == ds.take(i as int)[j]);
                }
            }
        }
        i = i + 1;
    }
    assert(ds.take(i as int) =~= ds);
    let squeezed = crate::trits::fit_trits(&state, HASH_LENGTH);
    assert(squeezed@ =~= squeeze(state@));
    let computed = trytes_from_trits(squeezed.as_slice());
    let a = String::from_str(address);
    Ok(computed == a)
}

} // verus!
