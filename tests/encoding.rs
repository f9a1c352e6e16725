use blockchain_albatross::micro_block::{MicroBlock, MicroHeader, MicroJustification};

#[test]
fn header_bytes_are_big_endian() {
    let block = MicroBlock {
        header: MicroHeader {
            version: 0x0102,
            block_number: 0x0304_0506,
            view_number: 7,
            parent_hash: 0x1122_3344_5566_7788,
            extrinsics_root: 1,
            state_root: 2,
            seed: 3,
            timestamp: 0xff00,
        },
        justification: MicroJustification { signature: 99, view_change_proof: None },
        extrinsics: None,
    };
    let bytes = block.serialize_without_signature();
    assert_eq!(bytes.len(), 2 + 4 + 4 + 8 * 5);
    assert_eq!(&bytes[0..10], &[1, 2, 3, 4, 5, 6, 0, 0, 0, 7]);
    assert_eq!(&bytes[10..18], &[0x11, 0x22, 0x33, 0x44, 0x55, 0x66, 0x77, 0x88]);
    assert_eq!(&bytes[18..26], &[0, 0, 0, 0, 0, 0, 0, 1]);
    assert_eq!(&bytes[42..50], &[0, 0, 0, 0, 0, 0, 0xff, 0]);
    let mut other = block.clone();
    other.justification.signature = 5;
    assert_eq!(other.serialize_without_signature(), bytes);
}

#[test]
fn header_parses_back() {
    let header = MicroHeader {
        version: 0xbeef,
        block_number: 0xdead_0001,
        view_number: 3,
        parent_hash: u64::MAX,
        extrinsics_root: 0x0102_0304_0506_0708,
        state_root: 0,
        seed: 42,
        timestamp: 1_600_000_000_000,
    };
    let block = MicroBlock {
        header,
        justification: MicroJustification { signature: 1, view_change_proof: None },
        extrinsics: None,
    };
    let bytes = block.serialize_without_signature();
    assert_eq!(MicroHeader::deserialize(&bytes), Some(header));
    let mut short = bytes.clone();
    short.pop();
    assert_eq!(MicroHeader::deserialize(&short), None);
    let mut long = bytes;
    long.push(0);
    assert_eq!(MicroHeader::deserialize(&long), None);
}
