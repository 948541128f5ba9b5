//! Encoding objects.
use airferry::raptorq_core::{Config, Encoder, Error};

fn random_data(n: usize) -> Vec<u8> {
    (0..n)
        .map(|i| ((i * 1103515245 + 12345) & 0xff) as u8)
        .collect()
}

#[test]
fn encodes_and_lists_blocks() {
    let data = random_data(50_000);
    let enc = Encoder::new(&data, Config::default()).unwrap();
    let total_k: u64 = enc
        .meta()
        .blocks
        .iter()
        .map(|b| b.num_source_symbols as u64)
        .sum();
    assert!(total_k * 1024 >= 50_000);
}

#[test]
fn source_symbol_roundtrip_sizes() {
    let data = random_data(4096);
    let enc = Encoder::new(&data, Config::default()).unwrap();
    let s0 = enc.source_symbol(0, 0).unwrap();
    assert_eq!(s0.data.len(), 1024);
}

#[test]
fn repair_symbols_have_esi_above_k() {
    let data = random_data(8192);
    let enc = Encoder::new(&data, Config::default()).unwrap();
    let k = enc.meta().blocks[0].num_source_symbols;
    let repairs = enc.repair_symbols(0, 0, 5).unwrap();
    for (i, s) in repairs.iter().enumerate() {
        assert_eq!(s.id.esi, k + i as u32);
    }
}

#[test]
fn rejects_repair_range_past_24_bit_esi_before_upstream_call() {
    let data = random_data(8192);
    let enc = Encoder::new(&data, Config::default()).unwrap();
    let k = enc.meta().blocks[0].num_source_symbols;
    assert!(enc.repair_symbols(0, (1 << 24) - k, 1).is_err());
}

#[test]
fn source_symbols_are_the_data() {
    let data = random_data(2_500);
    let enc = Encoder::new(&data, Config::new(512).unwrap()).unwrap();
    assert_eq!(enc.config().symbol_size(), 512);
    assert_eq!(enc.num_blocks(), 1);
    assert_eq!(enc.meta().blocks[0].num_source_symbols, 5);
    assert_eq!(enc.meta().blocks[0].block_length, 2_560);
    assert_eq!(enc.meta().transfer_length, 2_500);
    let joined: Vec<u8> =
        enc.source_symbols(0).unwrap().into_iter().flat_map(|s| s.data).collect();
    assert_eq!(joined[..2_500], data[..]);
    assert!(joined[2_500..].iter().all(|&b| b == 0));
    assert_eq!(enc.source_symbol(0, 3).unwrap().data, data[1_536..2_048]);
    let oti = enc.meta().oti();
    assert_eq!((oti.transfer_length, oti.symbol_size, oti.source_blocks), (2_500, 512, 1));
}

#[test]
fn encoder_errors() {
    assert!(matches!(Encoder::new(&[], Config::default()), Err(Error::EmptyData)));
    let enc = Encoder::new(&random_data(2_048), Config::default()).unwrap();
    assert!(matches!(
        enc.source_symbol(1, 0),
        Err(Error::BlockOutOfRange { sbn: 1, total: 1 })
    ));
    assert!(matches!(
        enc.source_symbol(0, 2),
        Err(Error::UnknownSymbol { sbn: 0, esi: 2 })
    ));
    assert!(matches!(
        enc.repair_symbols(3, 0, 1),
        Err(Error::BlockOutOfRange { sbn: 3, total: 1 })
    ));
    assert!(matches!(
        enc.repair_symbols(0, u32::MAX, 1),
        Err(Error::UnknownSymbol { sbn: 0, esi: u32::MAX })
    ));
    assert!(matches!(
        enc.repair_symbols(0, (1 << 24) - 2, 1),
        Err(Error::UnknownSymbol { sbn: 0, esi: 16_777_216 })
    ));
    assert!(enc.repair_symbols(0, 0, 0).unwrap().is_empty());
    assert!(enc.source_symbols(9).is_err());
}

#[test]
fn repair_symbols_depend_on_their_id_only() {
    let enc = Encoder::new(&random_data(8_192), Config::default()).unwrap();
    let all = enc.repair_symbols(0, 0, 4).unwrap();
    let later = enc.repair_symbols(0, 2, 2).unwrap();
    assert_eq!(all[2], later[0]);
    assert_eq!(all[3], later[1]);
    assert_ne!(all[0].data, all[1].data);
}
