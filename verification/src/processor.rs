//! The instruction processor: validates ownership, decodes the inbound
//! instruction, and applies one atomic transition to the named accounts.
//!
//! Every operation either fully applies (all touched records and balances
//! updated) or fully fails (nothing updated): all validation and in-memory
//! work happens first, and the buffers and balances are only written once
//! every step has succeeded.

use vstd::prelude::*;
use vstd::slice::slice_to_vec;
use crate::account_state::{
    ProgramAccountState, spec_decode, spec_encode_state, spec_entries_sorted, spec_pairs_map,
    spec_payload_len, spec_map_fits, lemma_map_fits_canon, lemma_record_round_trip,
    BTREE_STORAGE, ACCOUNT_STATE_SPACE,
};
use crate::error::SampleError;
use crate::instruction::{ProgramInstruction, spec_parse_instruction};

verus! {

/// Fee debited for a mint, and for the receiving side of a transfer.
pub const MINTING_FEE: u64 = 10;
/// Fee debited from the sending side of a transfer.
pub const TRANSFERING_FEE: u64 = 30;
/// Fee debited for a burn.
pub const BURNING_FEE: u64 = 15;

/// One account as the ledger runtime hands it to the processor: the tag of
/// the entity that owns it, its balance, and its record buffer.
#[derive(Clone, Debug, PartialEq)]
pub struct LedgerAccount {
    pub owner: u64,
    pub lamports: u64,
    pub data: Vec<u8>,
}

// ---------------------------------------------------------------------
// Transition specifications
// ---------------------------------------------------------------------

/// Every account buffer except the last belongs to this program.
pub open spec fn spec_owners_ok(accs: Seq<LedgerAccount>, program_id: u64) -> bool {
    forall|i: int| 0 <= i < accs.len() - 1 ==> (#[trigger] accs[i]).owner == program_id
}

/// Total balance held by the accounts of an invocation.
pub open spec fn spec_sum_lamports(accs: Seq<LedgerAccount>) -> int
    decreases accs.len(),
{
    if accs.len() == 0 {
        0
    } else {
        accs[0].lamports + spec_sum_lamports(accs.drop_first())
    }
}

/// `new_data` is the canonical encoding of (`init`, `m`) committed over
/// `old_data`: the padding past the payload keeps its old contents.
pub open spec fn spec_committed(
    old_data: Seq<u8>,
    init: bool,
    m: Map<Seq<char>, Seq<char>>,
    new_data: Seq<u8>,
) -> bool {
    exists|es: Seq<(Seq<char>, Seq<char>)>|
        spec_entries_sorted(es) && #[trigger] spec_pairs_map(es) == m && spec_payload_len(es)
            <= BTREE_STORAGE && new_data == spec_encode_state(init, es) + old_data.skip(
            5 + spec_payload_len(es),
        )
}

/// A committed buffer decodes back to what was committed.
pub proof fn lemma_committed_decodes(
    old_data: Seq<u8>,
    init: bool,
    m: Map<Seq<char>, Seq<char>>,
    new_data: Seq<u8>,
)
    requires
        spec_committed(old_data, init, m, new_data),
        old_data.len() == ACCOUNT_STATE_SPACE,
    ensures
        new_data.len() == ACCOUNT_STATE_SPACE,
        spec_decode(new_data) == Ok::<_, SampleError>((init, m)),
{
    let es = choose|es: Seq<(Seq<char>, Seq<char>)>|
        spec_entries_sorted(es) && #[trigger] spec_pairs_map(es) == m && spec_payload_len(es)
            <= BTREE_STORAGE && new_data == spec_encode_state(init, es) + old_data.skip(
            5 + spec_payload_len(es),
        );
    lemma_record_round_trip(init, es, old_data.skip(5 + spec_payload_len(es)));
}

/// The transition `InitializeAccount` makes on the record it targets.
pub open spec fn spec_initialize_result(
    old0: LedgerAccount,
    new0: LedgerAccount,
    r: Result<(), SampleError>,
) -> bool {
    match spec_decode(old0.data@) {
        Err(e) => r == Err::<(), SampleError>(e) && new0 == old0,
        Ok((init, m)) => if init {
            r == Err::<(), SampleError>(SampleError::AlreadyInitializedState) && new0 == old0
        } else {
            r is Ok && new0.owner == old0.owner && new0.lamports == old0.lamports
                && spec_committed(old0.data@, true, Map::empty(), new0.data@)
        },
    }
}

/// The transition a mint makes on the record it targets.
pub open spec fn spec_mint_result(
    old0: LedgerAccount,
    new0: LedgerAccount,
    key: Seq<char>,
    value: Seq<char>,
    r: Result<(), SampleError>,
) -> bool {
    match spec_decode(old0.data@) {
        Err(e) => r == Err::<(), SampleError>(e) && new0 == old0,
        Ok((init, m)) => if !init {
            r == Err::<(), SampleError>(SampleError::UninitializedState) && new0 == old0
        } else if m.contains_key(key) {
            r == Err::<(), SampleError>(SampleError::KeyAlreadyExists) && new0 == old0
        } else if !spec_map_fits(m.insert(key, value)) {
            r == Err::<(), SampleError>(SampleError::StateSpaceExceeded) && new0 == old0
        } else {
            r is Ok && new0.owner == old0.owner && new0.lamports == old0.lamports
                && spec_committed(old0.data@, true, m.insert(key, value), new0.data@)
        },
    }
}

/// The transition a burn makes on the record it targets.  A burn does not
/// demand prior initialization; an absent key is the failure it reports.
pub open spec fn spec_burn_result(
    old0: LedgerAccount,
    new0: LedgerAccount,
    key: Seq<char>,
    r: Result<(), SampleError>,
) -> bool {
    match spec_decode(old0.data@) {
        Err(e) => r == Err::<(), SampleError>(e) && new0 == old0,
        Ok((init, m)) => if !m.contains_key(key) {
            r == Err::<(), SampleError>(SampleError::KeyNotFoundInAccount) && new0 == old0
        } else if !spec_map_fits(m.remove(key)) {
            r == Err::<(), SampleError>(SampleError::StateSpaceExceeded) && new0 == old0
        } else {
            r is Ok && new0.owner == old0.owner && new0.lamports == old0.lamports
                && spec_committed(old0.data@, init, m.remove(key), new0.data@)
        },
    }
}

/// The transition a transfer makes on its source and destination records.
/// The removed value moves unchanged; when any step fails, neither record
/// changes.
pub open spec fn spec_transfer_result(
    oldf: LedgerAccount,
    oldt: LedgerAccount,
    newf: LedgerAccount,
    newt: LedgerAccount,
    key: Seq<char>,
    r: Result<(), SampleError>,
) -> bool {
    let unchanged = newf == oldf && newt == oldt;
    match spec_decode(oldf.data@) {
        Err(e) => r == Err::<(), SampleError>(e) && unchanged,
        Ok((finit, fm)) => if !finit {
            r == Err::<(), SampleError>(SampleError::UninitializedState) && unchanged
        } else {
            match spec_decode(oldt.data@) {
                Err(e) => r == Err::<(), SampleError>(e) && unchanged,
                Ok((tinit, tm)) => if !tinit {
                    r == Err::<(), SampleError>(SampleError::UninitializedState) && unchanged
                } else if !fm.contains_key(key) {
                    r == Err::<(), SampleError>(SampleError::KeyNotFoundInAccount) && unchanged
                } else if tm.contains_key(key) {
                    r == Err::<(), SampleError>(SampleError::KeyAlreadyExists) && unchanged
                } else if !spec_map_fits(fm.remove(key)) || !spec_map_fits(
                    tm.insert(key, fm[key]),
                ) {
                    r == Err::<(), SampleError>(SampleError::StateSpaceExceeded) && unchanged
                } else {
                    r is Ok && newf.owner == oldf.owner && newf.lamports == oldf.lamports
                        && newt.owner == oldt.owner && newt.lamports == oldt.lamports
                        && spec_committed(oldf.data@, true, fm.remove(key), newf.data@)
                        && spec_committed(oldt.data@, true, tm.insert(key, fm[key]), newt.data@)
                },
            }
        },
    }
}

/// A mint that first charges `MINTING_FEE` from the target account's
/// balance and credits it to the service account.  When the balance is
/// short, or the mint itself fails, nothing changes anywhere.
pub open spec fn spec_mint_fee_result(
    old0: LedgerAccount,
    old1: LedgerAccount,
    new0: LedgerAccount,
    new1: LedgerAccount,
    key: Seq<char>,
    value: Seq<char>,
    r: Result<(), SampleError>,
) -> bool {
    let unchanged = new0 == old0 && new1 == old1;
    if old0.lamports < MINTING_FEE {
        r == Err::<(), SampleError>(SampleError::InsufficientFundsForTransaction) && unchanged
    } else {
        match spec_decode(old0.data@) {
            Err(e) => r == Err::<(), SampleError>(e) && unchanged,
            Ok((init, m)) => if !init {
                r == Err::<(), SampleError>(SampleError::UninitializedState) && unchanged
            } else if m.contains_key(key) {
                r == Err::<(), SampleError>(SampleError::KeyAlreadyExists) && unchanged
            } else if !spec_map_fits(m.insert(key, value)) {
                r == Err::<(), SampleError>(SampleError::StateSpaceExceeded) && unchanged
            } else {
                r is Ok && new0.owner == old0.owner && new0.lamports == old0.lamports - MINTING_FEE
                    && spec_committed(old0.data@, true, m.insert(key, value), new0.data@)
                    && new1.owner == old1.owner && new1.lamports == old1.lamports + MINTING_FEE
                    && new1.data == old1.data
            },
        }
    }
}

/// A transfer that charges `TRANSFERING_FEE` from the source and
/// `MINTING_FEE` from the destination, crediting both to the service
/// account.  Any shortfall or transfer failure changes nothing.
pub open spec fn spec_transfer_fee_result(
    old0: LedgerAccount,
    old1: LedgerAccount,
    old2: LedgerAccount,
    new0: LedgerAccount,
    new1: LedgerAccount,
    new2: LedgerAccount,
    key: Seq<char>,
    r: Result<(), SampleError>,
) -> bool {
    let unchanged = new0 == old0 && new1 == old1 && new2 == old2;
    if old0.lamports < TRANSFERING_FEE || old1.lamports < MINTING_FEE {
        r == Err::<(), SampleError>(SampleError::InsufficientFundsForTransaction) && unchanged
    } else {
        match spec_decode(old0.data@) {
            Err(e) => r == Err::<(), SampleError>(e) && unchanged,
            Ok((finit, fm)) => if !finit {
                r == Err::<(), SampleError>(SampleError::UninitializedState) && unchanged
            } else {
                match spec_decode(old1.data@) {
                    Err(e) => r == Err::<(), SampleError>(e) && unchanged,
                    Ok((tinit, tm)) => if !tinit {
                        r == Err::<(), SampleError>(SampleError::UninitializedState) && unchanged
                    } else if !fm.contains_key(key) {
                        r == Err::<(), SampleError>(SampleError::KeyNotFoundInAccount) && unchanged
                    } else if tm.contains_key(key) {
                        r == Err::<(), SampleError>(SampleError::KeyAlreadyExists) && unchanged
                    } else if !spec_map_fits(fm.remove(key)) || !spec_map_fits(
                        tm.insert(key, fm[key]),
                    ) {
                        r == Err::<(), SampleError>(SampleError::StateSpaceExceeded) && unchanged
                    } else {
                        r is Ok && new0.owner == old0.owner && new0.lamports == old0.lamports
                            - TRANSFERING_FEE && spec_committed(
                            old0.data@,
                            true,
                            fm.remove(key),
                            new0.data@,
                        ) && new1.owner == old1.owner && new1.lamports == old1.lamports
                            - MINTING_FEE && spec_committed(
                            old1.data@,
                            true,
                            tm.insert(key, fm[key]),
                            new1.data@,
                        ) && new2.owner == old2.owner && new2.lamports == old2.lamports
                            + TRANSFERING_FEE + MINTING_FEE && new2.data == old2.data
                    },
                }
            },
        }
    }
}

/// A burn that first charges `BURNING_FEE` from the target account's
/// balance and credits it to the service account.
pub open spec fn spec_burn_fee_result(
    old0: LedgerAccount,
    old1: LedgerAccount,
    new0: LedgerAccount,
    new1: LedgerAccount,
    key: Seq<char>,
    r: Result<(), SampleError>,
) -> bool {
    let unchanged = new0 == old0 && new1 == old1;
    if old0.lamports < BURNING_FEE {
        r == Err::<(), SampleError>(SampleError::InsufficientFundsForTransaction) && unchanged
    } else {
        match spec_decode(old0.data@) {
            Err(e) => r == Err::<(), SampleError>(e) && unchanged,
            Ok((init, m)) => if !m.contains_key(key) {
                r == Err::<(), SampleError>(SampleError::KeyNotFoundInAccount) && unchanged
            } else if !spec_map_fits(m.remove(key)) {
                r == Err::<(), SampleError>(SampleError::StateSpaceExceeded) && unchanged
            } else {
                r is Ok && new0.owner == old0.owner && new0.lamports == old0.lamports - BURNING_FEE
                    && spec_committed(old0.data@, init, m.remove(key), new0.data@) && new1.owner
                    == old1.owner && new1.lamports == old1.lamports + BURNING_FEE && new1.data
                    == old1.data
            },
        }
    }
}

/// How many leading accounts the operation reads or writes.
pub open spec fn spec_accounts_needed(tag: u8) -> int {
    if tag == 5 {
        3
    } else if tag == 2 || tag == 4 || tag == 6 {
        2
    } else {
        1
    }
}

/// Accounts from `n` on are untouched.
pub open spec fn spec_frame(olds: Seq<LedgerAccount>, news: Seq<LedgerAccount>, n: int) -> bool {
    news.len() == olds.len() && forall|i: int| n <= i < olds.len() ==> news[i] == (#[trigger] olds[i])
}

/// What dispatching a decoded instruction does to the account list.
pub open spec fn spec_dispatch(
    tag: u8,
    key: Seq<char>,
    value: Seq<char>,
    olds: Seq<LedgerAccount>,
    news: Seq<LedgerAccount>,
    r: Result<(), SampleError>,
) -> bool {
    if olds.len() < spec_accounts_needed(tag) {
        r == Err::<(), SampleError>(SampleError::NotEnoughAccounts) && news == olds
    } else if tag == 0 {
        spec_initialize_result(olds[0], news[0], r) && spec_frame(olds, news, 1)
    } else if tag == 1 {
        spec_mint_result(olds[0], news[0], key, value, r) && spec_frame(olds, news, 1)
    } else if tag == 2 {
        spec_transfer_result(olds[0], olds[1], news[0], news[1], key, r) && spec_frame(
            olds,
            news,
            2,
        )
    } else if tag == 3 {
        spec_burn_result(olds[0], news[0], key, r) && spec_frame(olds, news, 1)
    } else if tag == 4 {
        spec_mint_fee_result(olds[0], olds[1], news[0], news[1], key, value, r) && spec_frame(
            olds,
            news,
            2,
        )
    } else if tag == 5 {
        spec_transfer_fee_result(
            olds[0],
            olds[1],
            olds[2],
            news[0],
            news[1],
            news[2],
            key,
            r,
        ) && spec_frame(olds, news, 3)
    } else {
        spec_burn_fee_result(olds[0], olds[1], news[0], news[1], key, r) && spec_frame(
            olds,
            news,
            2,
        )
    }
}

// ---------------------------------------------------------------------
// Laws of the processor
// ---------------------------------------------------------------------

/// Initialization succeeds at most once: after a successful
/// `InitializeAccount`, a second one on the same record always fails with
/// `AlreadyInitializedState` and leaves the record exactly as it was.
pub proof fn lemma_initialize_idempotent_once(
    a0: LedgerAccount,
    a1: LedgerAccount,
    a2: LedgerAccount,
    r1: Result<(), SampleError>,
    r2: Result<(), SampleError>,
)
    requires
        spec_initialize_result(a0, a1, r1),
        r1 is Ok,
        spec_initialize_result(a1, a2, r2),
    ensures
        r2 == Err::<(), SampleError>(SampleError::AlreadyInitializedState),
        a2 == a1,
{
    assert(a0.data@.len() == ACCOUNT_STATE_SPACE) by {
        if a0.data@.len() != ACCOUNT_STATE_SPACE {
            assert(spec_decode(a0.data@) is Err);
        }
    }
    lemma_committed_decodes(a0.data@, true, Map::empty(), a1.data@);
}

/// Minting is insert-only: after a successful mint of `key`, minting `key`
/// again fails with `KeyAlreadyExists`, the record keeps the first value,
/// and nothing changes.
pub proof fn lemma_mint_same_key_twice(
    a0: LedgerAccount,
    a1: LedgerAccount,
    a2: LedgerAccount,
    key: Seq<char>,
    v1: Seq<char>,
    v2: Seq<char>,
    r1: Result<(), SampleError>,
    r2: Result<(), SampleError>,
)
    requires
        spec_mint_result(a0, a1, key, v1, r1),
        r1 is Ok,
        spec_mint_result(a1, a2, key, v2, r2),
    ensures
        r2 == Err::<(), SampleError>(SampleError::KeyAlreadyExists),
        a2 == a1,
        spec_decode(a1.data@) matches Ok(m) && m.1[key] == v1,
{
    assert(a0.data@.len() == ACCOUNT_STATE_SPACE) by {
        if a0.data@.len() != ACCOUNT_STATE_SPACE {
            assert(spec_decode(a0.data@) is Err);
        }
    }
    let m0 = spec_decode(a0.data@)->Ok_0.1;
    lemma_committed_decodes(a0.data@, true, m0.insert(key, v1), a1.data@);
}

/// Transfer exactness: moving `key` removes it from the source record and
/// adds it, with its value unchanged, to the destination record; when the
/// source lacks the key, neither record changes and `KeyNotFoundInAccount`
/// comes back.
pub proof fn lemma_transfer_exactness(
    oldf: LedgerAccount,
    oldt: LedgerAccount,
    newf: LedgerAccount,
    newt: LedgerAccount,
    key: Seq<char>,
    fm: Map<Seq<char>, Seq<char>>,
    tm: Map<Seq<char>, Seq<char>>,
    r: Result<(), SampleError>,
)
    requires
        spec_transfer_result(oldf, oldt, newf, newt, key, r),
        spec_decode(oldf.data@) == Ok::<_, SampleError>((true, fm)),
        spec_decode(oldt.data@) == Ok::<_, SampleError>((true, tm)),
    ensures
        !fm.contains_key(key) ==> r == Err::<(), SampleError>(SampleError::KeyNotFoundInAccount)
            && newf == oldf && newt == oldt,
        r is Ok ==> spec_decode(newf.data@) == Ok::<_, SampleError>((true, fm.remove(key)))
            && spec_decode(newt.data@) == Ok::<_, SampleError>((true, tm.insert(key, fm[key])))
            && newf.lamports == oldf.lamports && newt.lamports == oldt.lamports,
{
    if r is Ok {
        assert(oldf.data@.len() == ACCOUNT_STATE_SPACE) by {
            if oldf.data@.len() != ACCOUNT_STATE_SPACE {
                assert(spec_decode(oldf.data@) is Err);
            }
        }
        assert(oldt.data@.len() == ACCOUNT_STATE_SPACE) by {
            if oldt.data@.len() != ACCOUNT_STATE_SPACE {
                assert(spec_decode(oldt.data@) is Err);
            }
        }
        lemma_committed_decodes(oldf.data@, true, fm.remove(key), newf.data@);
        lemma_committed_decodes(oldt.data@, true, tm.insert(key, fm[key]), newt.data@);
    }
}

/// Burning an absent key fails with `KeyNotFoundInAccount` and leaves the
/// record unchanged.
pub proof fn lemma_burn_missing_key(
    old0: LedgerAccount,
    new0: LedgerAccount,
    key: Seq<char>,
    init: bool,
    m: Map<Seq<char>, Seq<char>>,
    r: Result<(), SampleError>,
)
    requires
        spec_burn_result(old0, new0, key, r),
        spec_decode(old0.data@) == Ok::<_, SampleError>((init, m)),
        !m.contains_key(key),
    ensures
        r == Err::<(), SampleError>(SampleError::KeyNotFoundInAccount),
        new0 == old0,
{
}

/// Whether some payer of the fee-charging operation `tag` cannot cover
/// its fee.
pub open spec fn spec_fee_short(tag: u8, olds: Seq<LedgerAccount>) -> bool {
    if tag == 4 {
        olds[0].lamports < MINTING_FEE
    } else if tag == 5 {
        olds[0].lamports < TRANSFERING_FEE || olds[1].lamports < MINTING_FEE
    } else {
        olds[0].lamports < BURNING_FEE
    }
}

/// Fee atomicity: when a payer's balance is less than its required fee,
/// the fee-charging operation fails with
/// `InsufficientFundsForTransaction` and no balance or record anywhere
/// changes.
pub proof fn lemma_fee_atomicity(
    tag: u8,
    key: Seq<char>,
    value: Seq<char>,
    olds: Seq<LedgerAccount>,
    news: Seq<LedgerAccount>,
    r: Result<(), SampleError>,
)
    requires
        tag == 4 || tag == 5 || tag == 6,
        olds.len() >= spec_accounts_needed(tag),
        spec_fee_short(tag, olds),
        spec_dispatch(tag, key, value, olds, news, r),
    ensures
        r == Err::<(), SampleError>(SampleError::InsufficientFundsForTransaction),
        news == olds,
{
    let n = spec_accounts_needed(tag);
    assert forall|i: int| 0 <= i < olds.len() implies news[i] == olds[i] by {
        if i >= n {
        }
    }
    assert(news =~= olds);
}

// ---------------------------------------------------------------------
// Small executable helpers
// ---------------------------------------------------------------------

/// An owned copy of a byte buffer.
fn copy_bytes(v: &Vec<u8>) -> (r: Vec<u8>)
    ensures
        r@ == v@,
{
    slice_to_vec(v.as_slice())
}

/// Replaces balance and buffer of the account at `i`, keeping its owner.
fn replace_account(accounts: &mut Vec<LedgerAccount>, i: usize, lamports: u64, data: Vec<u8>)
    requires
        i < old(accounts)@.len(),
    ensures
        final(accounts)@ == old(accounts)@.update(
            i as int,
            (LedgerAccount { owner: old(accounts)@[i as int].owner, lamports, data }),
        ),
{
    let ghost orig = accounts@;
    let mut a = accounts.remove(i);
    a.lamports = lamports;
    a.data = data;
    accounts.insert(i, a);
    proof {
        assert(final(accounts)@ =~= orig.update(
            i as int,
            (LedgerAccount { owner: orig[i as int].owner, lamports, data: final(accounts)@[i as int].data }),
        ));
    }
}

/// Sets the balance of the account at `i`, keeping everything else.
fn set_lamports(accounts: &mut Vec<LedgerAccount>, i: usize, lamports: u64)
    requires
        i < old(accounts)@.len(),
    ensures
        final(accounts)@ == old(accounts)@.update(
            i as int,
            (LedgerAccount {
                owner: old(accounts)@[i as int].owner,
                lamports,
                data: old(accounts)@[i as int].data,
            }),
        ),
{
    let ghost orig = accounts@;
    let mut a = accounts.remove(i);
    a.lamports = lamports;
    accounts.insert(i, a);
    proof {
        assert(final(accounts)@ =~= orig.update(
            i as int,
            (LedgerAccount {
                owner: orig[i as int].owner,
                lamports,
                data: final(accounts)@[i as int].data,
            }),
        ));
    }
}

/// The first balances are bounded by the total.
proof fn lemma_sum_prefix_bound(accs: Seq<LedgerAccount>)
    ensures
        accs.len() >= 1 ==> accs[0].lamports <= spec_sum_lamports(accs),
        accs.len() >= 2 ==> accs[0].lamports + accs[1].lamports <= spec_sum_lamports(accs),
        accs.len() >= 3 ==> accs[0].lamports + accs[1].lamports + accs[2].lamports
            <= spec_sum_lamports(accs),
    decreases accs.len(),
{
    if accs.len() > 0 {
        lemma_sum_prefix_bound(accs.drop_first());
        lemma_sum_nonneg(accs.drop_first());
        if accs.len() >= 2 {
            lemma_sum_nonneg(accs.drop_first().drop_first());
        }
        if accs.len() >= 3 {
            lemma_sum_nonneg(accs.drop_first().drop_first().drop_first());
        }
        assert(accs.drop_first().len() >= 1 ==> accs.drop_first()[0] == accs[1]);
        assert(accs.drop_first().len() >= 2 ==> accs.drop_first()[1] == accs[2]);
    }
}

proof fn lemma_sum_nonneg(accs: Seq<LedgerAccount>)
    ensures
        spec_sum_lamports(accs) >= 0,
    decreases accs.len(),
{
    if accs.len() > 0 {
        lemma_sum_nonneg(accs.drop_first());
    }
}

// ---------------------------------------------------------------------
// The operations
// ---------------------------------------------------------------------

/// Checks each tracking account except the last against the program's
/// identity; the final account is the invoking identity and is exempt.
fn check_account_ownership(program_id: u64, accounts: &Vec<LedgerAccount>) -> (r: Result<
    (),
    SampleError,
>)
    ensures
        r is Ok <==> spec_owners_ok(accounts@, program_id),
        r matches Err(e) ==> e == SampleError::IncorrectOwner,
{
    let n = accounts.len();
    if n == 0 {
        return Ok(());
    }
    let mut i: usize = 0;
    while i < n - 1
        invariant
            i <= n - 1,
            n >= 1,
            n == accounts@.len(),
            forall|j: int| 0 <= j < i ==> (#[trigger] accounts@[j]).owner == program_id,
        decreases n - i,
    {
        if accounts[i].owner != program_id {
            return Err(SampleError::IncorrectOwner);
        }
        i = i + 1;
    }
    Ok(())
}

/// Initializes the record of the first account: empty map, flag set.
fn initialize_account(accounts: &mut Vec<LedgerAccount>) -> (r: Result<(), SampleError>)
    requires
        old(accounts)@.len() >= 1,
    ensures
        spec_initialize_result(old(accounts)@[0], final(accounts)@[0], r),
        spec_frame(old(accounts)@, final(accounts)@, 1),
{
    let account_state = match ProgramAccountState::unpack_from_slice(accounts[0].data.as_slice()) {
        Ok(st) => st,
        Err(e) => {
            return Err(e);
        },
    };
    if account_state.is_initialized() {
        return Err(SampleError::AlreadyInitializedState);
    }
    let mut fresh = ProgramAccountState::new();
    fresh.set_initialized();
    let mut buf = copy_bytes(&accounts[0].data);
    proof {
        vstd::bytes::lemma_auto_spec_u32_to_from_le_bytes();
        assert(crate::account_state::spec_encode_entries(fresh.entries_model()).len() == 0);
    }
    let packed = fresh.pack_into_slice(&mut buf);
    match packed {
        Ok(()) => {},
        Err(e) => {
            return Err(e);
        },
    }
    let lamports = accounts[0].lamports;
    replace_account(accounts, 0, lamports, buf);
    proof {
        assert(spec_pairs_map(fresh.entries_model()) =~= Map::<Seq<char>, Seq<char>>::empty());
    }
    Ok(())
}

/// Mints a key/value pair into the record of the first account.
fn mint_keypair_to_account(accounts: &mut Vec<LedgerAccount>, key: String, value: String) -> (r:
    Result<(), SampleError>)
    requires
        old(accounts)@.len() >= 1,
    ensures
        spec_mint_result(old(accounts)@[0], final(accounts)@[0], key@, value@, r),
        spec_frame(old(accounts)@, final(accounts)@, 1),
{
    let mut account_state = match ProgramAccountState::unpack_from_slice(
        accounts[0].data.as_slice(),
    ) {
        Ok(st) => st,
        Err(e) => {
            return Err(e);
        },
    };
    if !account_state.is_initialized() {
        return Err(SampleError::UninitializedState);
    }
    match account_state.add(key, value) {
        Ok(()) => {},
        Err(e) => {
            return Err(e);
        },
    }
    let mut buf = copy_bytes(&accounts[0].data);
    match account_state.pack_into_slice(&mut buf) {
        Ok(()) => {},
        Err(e) => {
            proof {
                lemma_map_fits_canon(account_state.entries_model());
            }
            return Err(e);
        },
    }
    proof {
        lemma_map_fits_canon(account_state.entries_model());
    }
    let lamports = accounts[0].lamports;
    replace_account(accounts, 0, lamports, buf);
    Ok(())
}

/// Burns a key from the record of the first account.
fn burn_keypair_from_account(accounts: &mut Vec<LedgerAccount>, key: String) -> (r: Result<
    (),
    SampleError,
>)
    requires
        old(accounts)@.len() >= 1,
    ensures
        spec_burn_result(old(accounts)@[0], final(accounts)@[0], key@, r),
        spec_frame(old(accounts)@, final(accounts)@, 1),
{
    let mut account_state = match ProgramAccountState::unpack_from_slice(
        accounts[0].data.as_slice(),
    ) {
        Ok(st) => st,
        Err(e) => {
            return Err(e);
        },
    };
    match account_state.remove(key.as_str()) {
        Ok(_value) => {},
        Err(e) => {
            return Err(e);
        },
    }
    let mut buf = copy_bytes(&accounts[0].data);
    match account_state.pack_into_slice(&mut buf) {
        Ok(()) => {},
        Err(e) => {
            proof {
                lemma_map_fits_canon(account_state.entries_model());
            }
            return Err(e);
        },
    }
    proof {
        lemma_map_fits_canon(account_state.entries_model());
    }
    let lamports = accounts[0].lamports;
    replace_account(accounts, 0, lamports, buf);
    Ok(())
}

/// Moves a key/value pair from the first account's record to the second's.
fn transfer_keypair_to_account(accounts: &mut Vec<LedgerAccount>, key: String) -> (r: Result<
    (),
    SampleError,
>)
    requires
        old(accounts)@.len() >= 2,
    ensures
        spec_transfer_result(
            old(accounts)@[0],
            old(accounts)@[1],
            final(accounts)@[0],
            final(accounts)@[1],
            key@,
            r,
        ),
        spec_frame(old(accounts)@, final(accounts)@, 2),
{
    let mut from_state = match ProgramAccountState::unpack_from_slice(
        accounts[0].data.as_slice(),
    ) {
        Ok(st) => st,
        Err(e) => {
            return Err(e);
        },
    };
    if !from_state.is_initialized() {
        return Err(SampleError::UninitializedState);
    }
    let mut to_state = match ProgramAccountState::unpack_from_slice(accounts[1].data.as_slice()) {
        Ok(st) => st,
        Err(e) => {
            return Err(e);
        },
    };
    if !to_state.is_initialized() {
        return Err(SampleError::UninitializedState);
    }
    let value = match from_state.remove(key.as_str()) {
        Ok(v) => v,
        Err(e) => {
            return Err(e);
        },
    };
    match to_state.add(key, value) {
        Ok(()) => {},
        Err(e) => {
            return Err(e);
        },
    }
    let mut from_buf = copy_bytes(&accounts[0].data);
    match from_state.pack_into_slice(&mut from_buf) {
        Ok(()) => {},
        Err(e) => {
            proof {
                lemma_map_fits_canon(from_state.entries_model());
            }
            return Err(e);
        },
    }
    let mut to_buf = copy_bytes(&accounts[1].data);
    match to_state.pack_into_slice(&mut to_buf) {
        Ok(()) => {},
        Err(e) => {
            proof {
                lemma_map_fits_canon(from_state.entries_model());
                lemma_map_fits_canon(to_state.entries_model());
            }
            return Err(e);
        },
    }
    proof {
        lemma_map_fits_canon(from_state.entries_model());
        lemma_map_fits_canon(to_state.entries_model());
    }
    let lamports0 = accounts[0].lamports;
    replace_account(accounts, 0, lamports0, from_buf);
    let lamports1 = accounts[1].lamports;
    replace_account(accounts, 1, lamports1, to_buf);
    Ok(())
}

/// Mint with its service fee: the target account pays, the service
/// account collects; the fee moves only when the mint succeeds.
fn mint_keypair_to_account_with_fee(
    accounts: &mut Vec<LedgerAccount>,
    key: String,
    value: String,
) -> (r: Result<(), SampleError>)
    requires
        old(accounts)@.len() >= 2,
        old(accounts)@[0].lamports + old(accounts)@[1].lamports <= u64::MAX,
    ensures
        spec_mint_fee_result(
            old(accounts)@[0],
            old(accounts)@[1],
            final(accounts)@[0],
            final(accounts)@[1],
            key@,
            value@,
            r,
        ),
        spec_frame(old(accounts)@, final(accounts)@, 2),
{
    if accounts[0].lamports < MINTING_FEE {
        return Err(SampleError::InsufficientFundsForTransaction);
    }
    let payer_after = accounts[0].lamports - MINTING_FEE;
    let service_after = accounts[1].lamports + MINTING_FEE;
    match mint_keypair_to_account(accounts, key, value) {
        Ok(()) => {},
        Err(e) => {
            return Err(e);
        },
    }
    set_lamports(accounts, 0, payer_after);
    set_lamports(accounts, 1, service_after);
    Ok(())
}

/// Transfer with its service fees: the source pays the transfer fee, the
/// destination the minting fee, both credited to the service account; the
/// fees move only when the transfer succeeds.
fn transfer_keypair_to_account_with_fee(accounts: &mut Vec<LedgerAccount>, key: String) -> (r:
    Result<(), SampleError>)
    requires
        old(accounts)@.len() >= 3,
        old(accounts)@[0].lamports + old(accounts)@[1].lamports + old(accounts)@[2].lamports
            <= u64::MAX,
    ensures
        spec_transfer_fee_result(
            old(accounts)@[0],
            old(accounts)@[1],
            old(accounts)@[2],
            final(accounts)@[0],
            final(accounts)@[1],
            final(accounts)@[2],
            key@,
            r,
        ),
        spec_frame(old(accounts)@, final(accounts)@, 3),
{
    if accounts[0].lamports < TRANSFERING_FEE {
        return Err(SampleError::InsufficientFundsForTransaction);
    }
    if accounts[1].lamports < MINTING_FEE {
        return Err(SampleError::InsufficientFundsForTransaction);
    }
    let from_after = accounts[0].lamports - TRANSFERING_FEE;
    let to_after = accounts[1].lamports - MINTING_FEE;
    let service_after = accounts[2].lamports + TRANSFERING_FEE + MINTING_FEE;
    match transfer_keypair_to_account(accounts, key) {
        Ok(()) => {},
        Err(e) => {
            return Err(e);
        },
    }
    set_lamports(accounts, 0, from_after);
    set_lamports(accounts, 1, to_after);
    set_lamports(accounts, 2, service_after);
    Ok(())
}

/// Burn with its service fee.
fn burn_keypair_from_account_with_fee(accounts: &mut Vec<LedgerAccount>, key: String) -> (r:
    Result<(), SampleError>)
    requires
        old(accounts)@.len() >= 2,
        old(accounts)@[0].lamports + old(accounts)@[1].lamports <= u64::MAX,
    ensures
        spec_burn_fee_result(
            old(accounts)@[0],
            old(accounts)@[1],
            final(accounts)@[0],
            final(accounts)@[1],
            key@,
            r,
        ),
        spec_frame(old(accounts)@, final(accounts)@, 2),
{
    if accounts[0].lamports < BURNING_FEE {
        return Err(SampleError::InsufficientFundsForTransaction);
    }
    let payer_after = accounts[0].lamports - BURNING_FEE;
    let service_after = accounts[1].lamports + BURNING_FEE;
    match burn_keypair_from_account(accounts, key) {
        Ok(()) => {},
        Err(e) => {
            return Err(e);
        },
    }
    set_lamports(accounts, 0, payer_after);
    set_lamports(accounts, 1, service_after);
    Ok(())
}

/// Main processing entry point: verifies ownership of every non-last
/// account, decodes the instruction, and dispatches one atomic operation.
pub fn process(
    program_id: u64,
    accounts: &mut Vec<LedgerAccount>,
    instruction_data: &[u8],
) -> (r: Result<(), SampleError>)
    requires
        spec_sum_lamports(old(accounts)@) <= u64::MAX,
    ensures
        !spec_owners_ok(old(accounts)@, program_id) ==> r == Err::<(), SampleError>(
            SampleError::IncorrectOwner,
        ) && final(accounts)@ == old(accounts)@,
        spec_owners_ok(old(accounts)@, program_id) ==> match spec_parse_instruction(
            instruction_data@,
        ) {
            Err(e) => r == Err::<(), SampleError>(e) && final(accounts)@ == old(accounts)@,
            Ok((tag, key, value)) => spec_dispatch(
                tag,
                key,
                value,
                old(accounts)@,
                final(accounts)@,
                r,
            ),
        },
{
    match check_account_ownership(program_id, accounts) {
        Ok(()) => {},
        Err(e) => {
            return Err(e);
        },
    }
    let instruction = match ProgramInstruction::unpack(instruction_data) {
        Ok(i) => i,
        Err(e) => {
            return Err(e);
        },
    };
    proof {
        lemma_sum_prefix_bound(accounts@);
        lemma_sum_nonneg(accounts@);
    }
    match instruction {
        ProgramInstruction::InitializeAccount => {
            if accounts.len() < 1 {
                return Err(SampleError::NotEnoughAccounts);
            }
            initialize_account(accounts)
        },
        ProgramInstruction::MintToAccount(key, value) => {
            if accounts.len() < 1 {
                return Err(SampleError::NotEnoughAccounts);
            }
            mint_keypair_to_account(accounts, key, value)
        },
        ProgramInstruction::TransferBetweenAccounts(key) => {
            if accounts.len() < 2 {
                return Err(SampleError::NotEnoughAccounts);
            }
            transfer_keypair_to_account(accounts, key)
        },
        ProgramInstruction::BurnFromAccount(key) => {
            if accounts.len() < 1 {
                return Err(SampleError::NotEnoughAccounts);
            }
            burn_keypair_from_account(accounts, key)
        },
        ProgramInstruction::MintToAccountWithFee(key, value) => {
            if accounts.len() < 2 {
                return Err(SampleError::NotEnoughAccounts);
            }
            mint_keypair_to_account_with_fee(accounts, key, value)
        },
        ProgramInstruction::TransferBetweenAccountsWithFee(key) => {
            if accounts.len() < 3 {
                return Err(SampleError::NotEnoughAccounts);
            }
            transfer_keypair_to_account_with_fee(accounts, key)
        },
        ProgramInstruction::BurnFromAccountWithFee(key) => {
            if accounts.len() < 2 {
                return Err(SampleError::NotEnoughAccounts);
            }
            burn_keypair_from_account_with_fee(accounts, key)
        },
    }
}

} // verus!
