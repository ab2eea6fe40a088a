use hope::collective::Collective;
use hope::protocol::{CloneRecord, MSG_GET_COLLECTIVE, MSG_PULSE, MSG_REGISTER, RECORD_SIZE, RESP_OK};

#[test]
fn new_collective_is_empty() {
    let c = Collective::new();
    assert!(c.records.is_empty());
    assert!(c.lineage.is_empty());
}

#[test]
fn protocol_codes() {
    assert_eq!((MSG_REGISTER, MSG_GET_COLLECTIVE, MSG_PULSE, RESP_OK), (1, 2, 3, 0));
    assert_eq!(RECORD_SIZE, 128);
    let r = CloneRecord {
        id: [1; 32],
        genome: [2; 32],
        chain: [3; 12],
        parent_chain: [4; 12],
        traits: 5,
        generation: 6,
        born_ts: 7,
        _pad: [0; 24],
    };
    let copy = r;
    assert_eq!(copy.generation, 6);
}
