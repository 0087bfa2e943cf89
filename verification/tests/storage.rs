//! Persistent state: what is saved comes back.

use murmur::raft::{
    InMemoryStorage, Log, LogEntry, PersistentState, RaftStorage, StorageError,
};

#[test]
fn save_then_load_roundtrips() {
    let mut storage = InMemoryStorage::new();
    assert_eq!(storage.load().unwrap(), PersistentState::default());

    let mut log = Log::new();
    log.append(LogEntry::new(1, b"set x=1".to_vec()));
    let state = PersistentState {
        current_term: 3,
        voted_for: Some(2),
        log,
        snapshot: None,
    };
    storage.save(&state).unwrap();

    assert_eq!(storage.load().unwrap(), state);
}

fn sample() -> PersistentState {
    PersistentState {
        current_term: 9,
        voted_for: Some(4),
        log: Log::from_parts(
            5,
            3,
            vec![LogEntry::new(3, b"six".to_vec()), LogEntry::new(9, Vec::new())],
        ),
        snapshot: Some(b"image".to_vec()),
    }
}

#[test]
fn states_survive_the_trip_through_bytes() {
    for state in [PersistentState::new(), sample()] {
        let bytes = state.to_bytes();
        assert_eq!(PersistentState::from_bytes(&bytes).unwrap(), state);
    }
}

#[test]
fn the_byte_form_is_fixed() {
    // Term 0, no vote, an empty log at its origin, no snapshot: six numbers of
    // eight bytes.
    assert_eq!(PersistentState::new().to_bytes(), vec![0; 48]);
    let bytes = sample().to_bytes();
    assert_eq!(&bytes[..8], &[9, 0, 0, 0, 0, 0, 0, 0]);
    assert_eq!(&bytes[8..24], &[1, 0, 0, 0, 0, 0, 0, 0, 4, 0, 0, 0, 0, 0, 0, 0]);
}

#[test]
fn damaged_bytes_are_turned_down() {
    let corrupt = StorageError { message: "corrupt raft state".to_string() };
    let bytes = sample().to_bytes();
    for n in 0..bytes.len() {
        assert_eq!(PersistentState::from_bytes(&bytes[..n]), Err(corrupt.clone()));
    }
    let mut longer = bytes.clone();
    longer.push(0);
    assert_eq!(PersistentState::from_bytes(&longer), Err(corrupt.clone()));
    // A flag that is neither 0 nor 1.
    let mut flagged = bytes.clone();
    flagged[8] = 2;
    assert_eq!(PersistentState::from_bytes(&flagged), Err(corrupt.clone()));
    // A snapshot that ends past the range of indices.
    let mut far = PersistentState::new().to_bytes();
    far[16..24].copy_from_slice(&u64::MAX.to_le_bytes());
    assert_eq!(PersistentState::from_bytes(&far), Err(corrupt.clone()));
    // A boundary term where nothing was compacted.
    let mut odd = PersistentState::new().to_bytes();
    odd[24] = 1;
    assert_eq!(PersistentState::from_bytes(&odd), Err(corrupt));
}
