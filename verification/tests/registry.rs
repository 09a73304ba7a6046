use merkle_tree_whitelist::action;
use merkle_tree_whitelist::initialize_merkle_tree;
use merkle_tree_whitelist::update_merkle_tree;
use merkle_tree_whitelist::Action;
use merkle_tree_whitelist::Initialize;
use merkle_tree_whitelist::Update;
use merkle_tree_whitelist::WhitelistError;
use merkle_tree_whitelist::WhitelistState;

const AUTHORITY: [u8; 32] = [0x01; 32];
const STRANGER: [u8; 32] = [0x02; 32];
const MEMBER: [u8; 32] = [0xAA; 32];
const NEIGHBOUR: [u8; 32] = [0xBB; 32];

// Keccak-256 of 32 bytes 0xAA followed by 32 bytes 0xBB.
const MEMBER_ROOT: [u8; 32] = [
    0x9f, 0x89, 0xfa, 0xaf, 0x14, 0x95, 0x29, 0x83, 0x00, 0xca, 0x41, 0xed, 0xde, 0x79, 0xc5, 0xcc,
    0x9c, 0xb9, 0xbf, 0x17, 0xe1, 0xc9, 0xef, 0x97, 0xac, 0xfd, 0xc5, 0x31, 0x94, 0xf9, 0x01, 0xe1,
];

const OTHER_ROOT: [u8; 32] = [0x77; 32];

fn record(root: [u8; 32]) -> WhitelistState {
    WhitelistState { merkle_root: root, authority: AUTHORITY, bump: 254 }
}

#[test]
fn initialize_fills_an_empty_slot() {
    let mut ctx = Initialize { whitelist_state: None, authority: AUTHORITY, bump: 254 };
    assert_eq!(initialize_merkle_tree(&mut ctx, MEMBER_ROOT), Ok(()));
    assert_eq!(ctx.whitelist_state, Some(record(MEMBER_ROOT)));
    assert_eq!(ctx.authority, AUTHORITY);
    assert_eq!(ctx.bump, 254);
}

#[test]
fn initialize_twice_is_refused() {
    let mut ctx = Initialize { whitelist_state: None, authority: AUTHORITY, bump: 7 };
    assert_eq!(initialize_merkle_tree(&mut ctx, MEMBER_ROOT), Ok(()));
    let before = ctx;
    assert_eq!(
        initialize_merkle_tree(&mut ctx, OTHER_ROOT),
        Err(WhitelistError::AlreadyInitialized)
    );
    assert_eq!(ctx, before);
}

#[test]
fn initialize_by_another_caller_does_not_take_over() {
    let mut ctx =
        Initialize { whitelist_state: Some(record(MEMBER_ROOT)), authority: STRANGER, bump: 1 };
    assert_eq!(
        initialize_merkle_tree(&mut ctx, OTHER_ROOT),
        Err(WhitelistError::AlreadyInitialized)
    );
    assert_eq!(ctx.whitelist_state, Some(record(MEMBER_ROOT)));
}

#[test]
fn authority_replaces_the_root() {
    let mut ctx = Update { authority: AUTHORITY, whitelist_state: record(MEMBER_ROOT) };
    assert_eq!(update_merkle_tree(&mut ctx, OTHER_ROOT), Ok(()));
    assert_eq!(ctx.whitelist_state.current_root(), OTHER_ROOT);
    assert_eq!(ctx.whitelist_state, record(OTHER_ROOT));
    assert_eq!(ctx.authority, AUTHORITY);
}

#[test]
fn stranger_cannot_replace_the_root() {
    let mut ctx = Update { authority: STRANGER, whitelist_state: record(MEMBER_ROOT) };
    assert_eq!(update_merkle_tree(&mut ctx, OTHER_ROOT), Err(WhitelistError::Unauthorized));
    assert_eq!(ctx.whitelist_state.current_root(), MEMBER_ROOT);
    assert_eq!(ctx.whitelist_state, record(MEMBER_ROOT));
}

#[test]
fn near_authority_cannot_replace_the_root() {
    for i in 0..32 {
        let mut caller = AUTHORITY;
        caller[i] ^= 1;
        let mut ctx = Update { authority: caller, whitelist_state: record(MEMBER_ROOT) };
        assert_eq!(update_merkle_tree(&mut ctx, OTHER_ROOT), Err(WhitelistError::Unauthorized));
        assert_eq!(ctx.whitelist_state, record(MEMBER_ROOT));
    }
}

#[test]
fn replacing_with_the_same_root_succeeds() {
    let mut ctx = Update { authority: AUTHORITY, whitelist_state: record(MEMBER_ROOT) };
    assert_eq!(update_merkle_tree(&mut ctx, MEMBER_ROOT), Ok(()));
    assert_eq!(ctx.whitelist_state, record(MEMBER_ROOT));
}

#[test]
fn current_root_reads_the_record() {
    assert_eq!(record(MEMBER_ROOT).current_root(), MEMBER_ROOT);
    assert_eq!(record(OTHER_ROOT).current_root(), OTHER_ROOT);
}

#[test]
fn member_is_admitted() {
    let ctx = Action { signer: MEMBER, whitelist_state: record(MEMBER_ROOT) };
    assert_eq!(action(ctx, NEIGHBOUR.to_vec(), 0), Ok(()));
}

#[test]
fn stranger_is_not_admitted() {
    let ctx = Action { signer: STRANGER, whitelist_state: record(MEMBER_ROOT) };
    assert_eq!(action(ctx, NEIGHBOUR.to_vec(), 0), Err(WhitelistError::InvalidProof));
}

#[test]
fn member_with_wrong_index_is_not_admitted() {
    let ctx = Action { signer: MEMBER, whitelist_state: record(MEMBER_ROOT) };
    assert_eq!(action(ctx, NEIGHBOUR.to_vec(), 1), Err(WhitelistError::InvalidProof));
}

#[test]
fn malformed_proof_is_not_admitted() {
    let ctx = Action { signer: MEMBER, whitelist_state: record(MEMBER_ROOT) };
    assert_eq!(action(ctx, vec![0xBB; 31], 0), Err(WhitelistError::InvalidProof));
    assert_eq!(action(ctx, vec![0xBB; 33], 0), Err(WhitelistError::InvalidProof));
}

#[test]
fn old_proof_fails_after_the_root_is_replaced() {
    let mut slot = Initialize { whitelist_state: None, authority: AUTHORITY, bump: 255 };
    assert_eq!(initialize_merkle_tree(&mut slot, MEMBER_ROOT), Ok(()));
    let state = slot.whitelist_state.unwrap();
    assert_eq!(action(Action { signer: MEMBER, whitelist_state: state }, NEIGHBOUR.to_vec(), 0), Ok(()));

    let mut refused = Update { authority: STRANGER, whitelist_state: state };
    assert_eq!(update_merkle_tree(&mut refused, OTHER_ROOT), Err(WhitelistError::Unauthorized));
    let state = refused.whitelist_state;
    assert_eq!(action(Action { signer: MEMBER, whitelist_state: state }, NEIGHBOUR.to_vec(), 0), Ok(()));

    let mut update = Update { authority: AUTHORITY, whitelist_state: state };
    assert_eq!(update_merkle_tree(&mut update, OTHER_ROOT), Ok(()));
    let state = update.whitelist_state;
    assert_eq!(state.current_root(), OTHER_ROOT);
    assert_eq!(
        action(Action { signer: MEMBER, whitelist_state: state }, NEIGHBOUR.to_vec(), 0),
        Err(WhitelistError::InvalidProof)
    );
}

#[test]
fn single_member_whitelist_admits_with_an_empty_proof() {
    let ctx = Action { signer: MEMBER, whitelist_state: record(MEMBER) };
    assert_eq!(action(ctx, vec![], 0), Ok(()));
    let other = Action { signer: STRANGER, whitelist_state: record(MEMBER) };
    assert_eq!(action(other, vec![], 0), Err(WhitelistError::InvalidProof));
}

#[test]
fn errors_have_messages() {
    assert_eq!(WhitelistError::InvalidProof.message(), "Invalid Merkle proof");
    assert_eq!(WhitelistError::Unauthorized.message(), "Caller is not the authority");
    assert_eq!(WhitelistError::AlreadyInitialized.message(), "Whitelist is already initialized");
}
