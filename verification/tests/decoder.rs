//! Reconstructing objects.
use airferry::raptorq_core::{Config, Decoder, Encoder, Error, Symbol};

fn random_data(n: usize) -> Vec<u8> {
    (0..n)
        .map(|i| ((i * 1103515245 + 12345) & 0xff) as u8)
        .collect()
}

fn encode_decode(
    data: &[u8],
    drop_pct: u32,
    duplicate: bool,
    shuffle: bool,
) -> Option<Vec<u8>> {
    let enc = Encoder::new(data, Config::default()).unwrap();
    let meta = enc.meta().clone();

    let mut syms: Vec<Symbol> = Vec::new();
    for sbn in 0..enc.num_blocks() as u32 {
        let k = meta.blocks[sbn as usize].num_source_symbols;
        syms.extend(enc.source_symbols(sbn).unwrap());
        syms.extend(enc.repair_symbols(sbn, 0, k / 2 + 1).unwrap());
        let _ = k;
    }

    if duplicate {
        let extra: Vec<Symbol> = syms.iter().take(5).cloned().collect();
        syms.extend(extra);
    }
    if shuffle {
        let n = syms.len();
        for i in (1..n).rev() {
            let j = (i.wrapping_mul(2654435761)) % (i + 1);
            syms.swap(i, j);
        }
    }
    if drop_pct > 0 {
        syms = syms
            .into_iter()
            .enumerate()
            .filter(|(i, _)| (*i as u32 % 100) >= drop_pct)
            .map(|(_, s)| s)
            .collect();
    }

    let mut dec = Decoder::new(meta).unwrap();
    for s in &syms {
        dec.add_symbol(s).unwrap();
    }
    dec.assemble()
}

#[test]
fn decodes_lossless() {
    let data = random_data(70_000);
    let got = encode_decode(&data, 0, false, false).unwrap();
    assert_eq!(got, data);
}

#[test]
fn decodes_with_duplicates_and_shuffle() {
    let data = random_data(35_000);
    let got = encode_decode(&data, 0, true, true).unwrap();
    assert_eq!(got, data);
}

#[test]
fn decodes_with_some_drops() {
    let data = random_data(35_000);
    let got = encode_decode(&data, 20, true, true).expect("should recover at 20% drop");
    assert_eq!(got, data);
}

#[test]
fn completion_is_told_once() {
    let data = random_data(4_000);
    let enc = Encoder::new(&data, Config::default()).unwrap();
    let symbols = enc.source_symbols(0).unwrap();
    let mut dec = Decoder::new(enc.meta().clone()).unwrap();
    let mut completions = 0;
    for s in &symbols {
        if dec.add_symbol(s).unwrap() {
            completions += 1;
        }
    }
    assert_eq!(completions, 1);
    assert!(dec.is_complete());
    assert!(!dec.add_symbol(&symbols[0]).unwrap());
    assert_eq!(dec.assemble().unwrap(), data);
}

#[test]
fn block_progress_counts_distinct_symbols() {
    let data = random_data(4_000);
    let enc = Encoder::new(&data, Config::default()).unwrap();
    let symbols = enc.source_symbols(0).unwrap();
    let mut dec = Decoder::new(enc.meta().clone()).unwrap();
    assert_eq!(dec.block_progress(0), Some(0));
    assert_eq!(dec.block_progress(1), None);
    dec.add_symbol(&symbols[2]).unwrap();
    dec.add_symbol(&symbols[2]).unwrap();
    dec.add_symbol(&symbols[1]).unwrap();
    assert_eq!(dec.block_progress(0), Some(2));
    assert!(!dec.is_block_decoded(0));
    assert_eq!(dec.decoded_block_count(), 0);
    assert!(dec.assemble().is_none());
    for s in &symbols {
        dec.add_symbol(s).unwrap();
    }
    assert!(dec.is_block_decoded(0));
    assert_eq!(dec.decoded_block_count(), 1);
}

#[test]
fn impossible_symbols_are_refused_or_ignored() {
    let data = random_data(4_000);
    let enc = Encoder::new(&data, Config::default()).unwrap();
    let mut dec = Decoder::new(enc.meta().clone()).unwrap();
    assert!(matches!(
        dec.add_symbol(&Symbol::new(1, 0, vec![0; 1024])),
        Err(Error::BlockOutOfRange { sbn: 1, total: 1 })
    ));
    assert!(!dec.add_symbol(&Symbol::new(0, 1 << 24, vec![0; 1024])).unwrap());
    assert!(!dec.add_symbol(&Symbol::new(0, 0, vec![0; 1023])).unwrap());
    assert_eq!(dec.block_progress(0), Some(0));
}

#[test]
fn repair_symbols_alone_recover_the_object() {
    let data = random_data(6_000);
    let enc = Encoder::new(&data, Config::default()).unwrap();
    let mut dec = Decoder::new(enc.meta().clone()).unwrap();
    for s in enc.repair_symbols(0, 10, 12).unwrap() {
        dec.add_symbol(&s).unwrap();
    }
    assert_eq!(dec.assemble().unwrap(), data);
}

#[test]
fn invalid_metadata_is_refused() {
    let data = random_data(4_000);
    let mut meta = Encoder::new(&data, Config::default()).unwrap().meta().clone();
    meta.blocks[0].sbn = 5;
    match Decoder::new(meta) {
        Err(Error::InvalidObjectMeta(reason)) => {
            assert_eq!(reason, "block sbn must equal its canonical index")
        }
        _ => panic!("accepted"),
    }
}
