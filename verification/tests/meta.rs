//! Object metadata.
use airferry::raptorq_core::{Config, Encoder, ObjectMeta, MAX_SOURCE_SYMBOLS_PER_BLOCK};

fn real_meta() -> ObjectMeta {
    let data: Vec<u8> = (0..40_000).map(|i| (i & 0xff) as u8).collect();
    Encoder::new(&data, Config::default())
        .unwrap()
        .meta()
        .clone()
}

#[test]
fn real_meta_passes_validation() {
    real_meta()
        .validate()
        .expect("legitimate meta must validate");
    let data: Vec<u8> = (0..40_000).map(|i| (i & 0xff) as u8).collect();
    let enc = Encoder::new(&data, Config::new(512).unwrap()).unwrap();
    enc.meta()
        .validate()
        .expect("512-byte-symbol meta must validate");
}

#[test]
fn meta_rejects_zero_symbol_size() {
    let mut m = real_meta();
    m.symbol_size = 0;
    assert!(m.validate().is_err());
}

#[test]
fn rejects_oversized_block_k() {
    let mut m = real_meta();
    let b = m.blocks.first_mut().unwrap();
    b.num_source_symbols = MAX_SOURCE_SYMBOLS_PER_BLOCK + 1;
    b.block_length = b.num_source_symbols as u64 * m.symbol_size as u64;
    assert!(m.validate().is_err());
}

#[test]
fn rejects_block_length_mismatch() {
    let mut m = real_meta();
    m.blocks.first_mut().unwrap().block_length += 1;
    assert!(m.validate().is_err());
}

#[test]
fn rejects_transfer_length_overflow() {
    let mut m = real_meta();
    m.transfer_length = u64::MAX;
    assert!(m.validate().is_err());
}

#[test]
fn rejects_empty_blocks() {
    let mut m = real_meta();
    m.blocks.clear();
    assert!(m.validate().is_err());
}

#[test]
fn rejects_oti_zero_alignment_and_sub_blocks() {
    let mut m = real_meta();
    m.oti_bytes[11] = 0;
    assert!(m.validate().is_err());

    let mut m = real_meta();
    m.oti_bytes[9] = 0;
    m.oti_bytes[10] = 0;
    assert!(m.validate().is_err());
}

#[test]
fn rejects_noncanonical_sbn() {
    let mut m = real_meta();
    m.blocks[0].sbn = 1;
    assert!(m.validate().is_err());
}

#[test]
fn rejections_tell_the_reason() {
    let base = real_meta();
    assert_eq!(base.validate(), Ok(()));

    let mut m = base.clone();
    m.symbol_size = 1025;
    assert_eq!(m.validate(), Err("symbol_size out of range"));

    let mut m = base.clone();
    m.symbol_size = 512;
    assert_eq!(m.validate(), Err("OTI symbol_size invalid or mismatched"));

    let mut m = base.clone();
    m.transfer_length += 1;
    assert_eq!(m.validate(), Err("OTI transfer_length mismatched"));

    let mut m = base.clone();
    m.oti_bytes[11] = 0;
    assert_eq!(m.validate(), Err("OTI sub-block/alignment must be non-zero"));

    let mut m = base.clone();
    m.oti_bytes[11] = 3;
    assert_eq!(m.validate(), Err("OTI symbol_size is not alignment-divisible"));

    let mut m = base.clone();
    m.oti_bytes[9] = 0xFF;
    assert_eq!(m.validate(), Err("OTI sub-block count exceeds aligned symbol units"));

    let mut m = base.clone();
    m.oti_bytes[5] = 1;
    assert_eq!(m.validate(), Err("OTI reserved byte must be zero"));

    let mut m = base.clone();
    m.transfer_length = 0;
    m.oti_bytes[..5].fill(0);
    assert_eq!(m.validate(), Err("transfer_length exceeds local receiver budget"));

    let mut m = base.clone();
    m.blocks.clear();
    assert_eq!(m.validate(), Err("source block count out of range"));

    let mut m = base.clone();
    m.oti_bytes[8] = 2;
    assert_eq!(m.validate(), Err("OTI source block count mismatched"));

    let mut m = base.clone();
    m.blocks[0].num_source_symbols = 0;
    assert_eq!(m.validate(), Err("block K out of range"));

    let mut m = base.clone();
    m.blocks[0].block_length += 1;
    assert_eq!(m.validate(), Err("block_length inconsistent with K*symbol_size"));

    let mut m = base.clone();
    m.blocks[0].num_source_symbols = 1;
    m.blocks[0].block_length = 1024;
    assert_eq!(m.validate(), Err("transfer_length exceeds total block bytes"));

    let mut m = base.clone();
    m.blocks[0].num_source_symbols = 50_000;
    m.blocks[0].block_length = 50_000 * 1024;
    assert_eq!(m.validate(), Err("decoder bytes exceed local receiver budget"));
}

#[test]
fn same_metadata_is_the_same() {
    let a = real_meta();
    let mut b = a.clone();
    assert!(a.same(&b));
    b.blocks[0].block_length += 1;
    assert!(!a.same(&b));
    let mut c = a.clone();
    c.oti_bytes[0] ^= 1;
    assert!(!a.same(&c));
}
