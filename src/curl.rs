//! The Curl sponge: a 729-trit state, absorbed and squeezed 243 trits at a time,
//! with an 81-round permutation between blocks.
use vstd::prelude::*;
use crate::trits::{all_trits, is_trit};

verus! {

pub const STATE_LENGTH: usize = 729;

pub const HASH_LENGTH: usize = 243;

pub const NUMBER_OF_ROUNDS: usize = 81;

/// One step of the walk over the state that each round makes.
pub open spec fn step(x: int) -> int {
    if x < 365 {
        x + 364
    } else {
        x - 365
    }
}

/// The state position read at step `k` of a round.
pub open spec fn scratch_index(k: nat) -> int
    decreases k,
{
    if k == 0 {
        0
    } else {
        step(scratch_index((k - 1) as nat))
    }
}

/// The substitution that combines two trits of the previous state.
pub open spec fn truth(a: i8, b: i8) -> i8 {
    seq![1i8, 0i8, -1i8, 2i8, 1i8, -1i8, 0i8, 2i8, -1i8, 1i8, 0i8][a + 4 * b + 5]
}

/// One round of the permutation.
pub open spec fn round(s: Seq<i8>) -> Seq<i8> {
    Seq::new(
        STATE_LENGTH as nat,
        |i: int| truth(s[scratch_index(i as nat)], s[scratch_index((i + 1) as nat)]),
    )
}

pub open spec fn rounds(s: Seq<i8>, n: nat) -> Seq<i8>
    decreases n,
{
    if n == 0 {
        s
    } else {
        round(rounds(s, (n - 1) as nat))
    }
}

/// The Curl permutation of a state.
pub open spec fn permute(s: Seq<i8>) -> Seq<i8> {
    rounds(s, NUMBER_OF_ROUNDS as nat)
}

/// A state of the sponge: 729 trits.
pub open spec fn is_state(s: Seq<i8>) -> bool {
    s.len() == STATE_LENGTH && all_trits(s)
}

/// The state after absorbing `input`, one block of at most 243 trits at a time:
/// each block overwrites the front of the state, which is then permuted.
pub open spec fn absorb(state: Seq<i8>, input: Seq<i8>) -> Seq<i8>
    decreases input.len(),
{
    if input.len() == 0 {
        state
    } else {
        let n = if input.len() < HASH_LENGTH {
            input.len() as int
        } else {
            HASH_LENGTH as int
        };
        absorb(permute(input.take(n) + state.skip(n)), input.skip(n))
    }
}

/// What a squeeze of one hash reads: the front of the state.
pub open spec fn squeeze(state: Seq<i8>) -> Seq<i8> {
    state.take(HASH_LENGTH as int)
}

/// The zero state that a fresh sponge starts from.
pub open spec fn zero_state() -> Seq<i8> {
    Seq::new(STATE_LENGTH as nat, |i: int| 0i8)
}

proof fn lemma_scratch_index_bound(k: nat)
    ensures
        0 <= scratch_index(k) < STATE_LENGTH,
    decreases k,
{
    if k > 0 {
        lemma_scratch_index_bound((k - 1) as nat);
    }
}

proof fn lemma_round_state(s: Seq<i8>)
    requires
        is_state(s),
    ensures
        is_state(round(s)),
{
    let r = round(s);
    assert forall|i: int| 0 <= i < r.len() implies is_trit(#[trigger] r[i]) by {
        lemma_scratch_index_bound(i as nat);
        lemma_scratch_index_bound((i + 1) as nat);
        let a = s[scratch_index(i as nat)];
        let b = s[scratch_index((i + 1) as nat)];
        assert(is_trit(a) && is_trit(b));
    }
}

pub proof fn lemma_rounds_state(s: Seq<i8>, n: nat)
    requires
        is_state(s),
    ensures
        is_state(rounds(s, n)),
    decreases n,
{
    if n > 0 {
        lemma_rounds_state(s, (n - 1) as nat);
        lemma_round_state(rounds(s, (n - 1) as nat));
    }
}

/// Absorbing trits into a state gives a state.
pub proof fn lemma_absorb_state(state: Seq<i8>, input: Seq<i8>)
    requires
        is_state(state),
        all_trits(input),
    ensures
        is_state(absorb(state, input)),
    decreases input.len(),
{
    if input.len() > 0 {
        let n = if input.len() < HASH_LENGTH {
            input.len() as int
        } else {
            HASH_LENGTH as int
        };
        let mixed = input.take(n) + state.skip(n);
        assert forall|i: int| 0 <= i < mixed.len() implies is_trit(#[trigger] mixed[i]) by {
            if i < n {
                assert(mixed[i] == input[i]);
            } else {
                assert(mixed[i] == state[i]);
            }
        }
        lemma_rounds_state(mixed, NUMBER_OF_ROUNDS as nat);
        let rest = input.skip(n);
        assert forall|i: int| 0 <= i < rest.len() implies is_trit(#[trigger] rest[i]) by {
            assert(rest[i] == input[i + n]);
        }
        lemma_absorb_state(permute(mixed), rest);
    }
}

fn truth_lookup(a: i8, b: i8) -> (r: i8)
    requires
        is_trit(a),
        is_trit(b),
    ensures
        r == truth(a, b),
        is_trit(r),
{
    let k = a + 4 * b + 5;
    if k == 0 || k == 9 {
        1
    } else if k == 1 || k == 6 || k == 10 {
        0
    } else if k == 2 || k == 5 || k == 8 {
        -1
    } else {
        1
    }
}

/// Applies the Curl permutation to a state in place.
pub fn transform(state: &mut Vec<i8>)
    requires
        is_state(old(state)@),
    ensures
        final(state)@ == permute(old(state)@),
        is_state(final(state)@),
{
    let ghost s0 = state@;
    let mut r: usize = 0;
    while r < NUMBER_OF_ROUNDS
        invariant
            r <= NUMBER_OF_ROUNDS,
            state@ == rounds(s0, r as nat),
            is_state(state@),
        decreases NUMBER_OF_ROUNDS - r,
    {
        let scratch = state.clone();
        let mut index: usize = 0;
        let mut i: usize = 0;
        while i < STATE_LENGTH
            invariant
                i <= STATE_LENGTH,
                scratch@ == rounds(s0, r as nat),
                is_state(scratch@),
                state@.len() == STATE_LENGTH,
                index as int == scratch_index(i as nat),
                index < STATE_LENGTH,
                forall|j: int| 0 <= j < i ==> #[trigger] state@[j] == round(scratch@)[j],
                forall|j: int| 0 <= j < STATE_LENGTH ==> is_trit(#[trigger] state@[j]),
            decreases STATE_LENGTH - i,
        {
            let prev = index;
            if index < 365 {
                index = index + 364;
            } else {
                index = index - 365;
            }
            let v = truth_lookup(scratch[prev], scratch[index]);
            state.set(i, v);
            i = i + 1;
        }
        assert(state@ =~= round(scratch@));
        r = r + 1;
    }
}

/// Absorbs `input` into a sponge state in place.
pub fn absorb_into(state: &mut Vec<i8>, input: &[i8])
    requires
        is_state(old(state)@),
        all_trits(input@),
    ensures
        final(state)@ == absorb(old(state)@, input@),
        is_state(final(state)@),
{
    let mut offset: usize = 0;
    assert(input@.skip(0) =~= input@);
    while offset < input.len()
        invariant
            offset <= input@.len(),
            all_trits(input@),
            is_state(state@),
            absorb(state@, input@.skip(offset as int)) == absorb(old(state)@, input@),
        decreases input@.len() - offset,
    {
        let rest = input.len() - offset;
        let n: usize = if rest < HASH_LENGTH { rest } else { HASH_LENGTH };
        let ghost before = state@;
        let ghost tail = input@.skip(offset as int);
        let len = input.len();
        let mut j: usize = 0;
        while j < n
            invariant
                len == input@.len(),
                offset + n <= len,
                j <= n,
                n <= HASH_LENGTH,
                offset + n <= input@.len(),
                all_trits(input@),
                state@.len() == STATE_LENGTH,
                forall|k: int| 0 <= k < j ==> #[trigger] state@[k] == input@[offset + k],
                forall|k: int| j <= k < STATE_LENGTH ==> #[trigger] state@[k] == before[k],
                is_state(before),
            decreases n - j,
        {
            assert(offset + j < input@.len());
            state.set(j, input[offset + j]);
            j = j + 1;
        }
        assert(state@ =~= tail.take(n as int) + before.skip(n as int));
        assert(is_state(state@)) by {
            assert forall|k: int| 0 <= k < STATE_LENGTH implies is_trit(#[trigger] state@[k]) by {
                if k < n {
                    assert(state@[k] == input@[offset + k]);
                }
            }
        }
        transform(state);
        assert(tail.skip(n as int) =~= input@.skip(offset + n));
        offset = offset + n;
    }
    assert(input@.skip(offset as int) =~= Seq::<i8>::empty());
}

} // verus!
