use fountaincode::ltcode::CatchResult::Finished;
use fountaincode::ltcode::CatchResult::Missing;
use fountaincode::ltcode::Decoder;
use fountaincode::ltcode::Droplet;
use fountaincode::ltcode::DropType;
use fountaincode::ltcode::Encoder;
use fountaincode::ltcode::EncoderType;
use fountaincode::sampling::sample_neighbors;
use fountaincode::soliton::IdealSoliton;
use fountaincode::LtError;
use fountaincode::Soliton;

use rand::rngs::StdRng;
use rand::Rng;
use rand::SeedableRng;

fn random_payload(n: usize, seed: u64) -> Vec<u8> {
    let mut rng = StdRng::seed_from_u64(seed);
    (0..n).map(|_| rng.gen::<u8>()).collect()
}

// Round trip on a fixed seed: the fox payload comes back exactly, within a
// bounded number of droplets.
#[test]
fn round_trip_fox_random_mode() {
    let payload = b"The quick brown fox jumps over the lazy dog.".to_vec();
    assert_eq!(payload.len(), 44);
    let to_compare = payload.clone();
    let mut enc = Encoder::with_seed(payload, 8, EncoderType::Random, 42).unwrap();
    let mut dec = Decoder::new(44, 8).unwrap();
    for _ in 0..100 {
        let drop = enc.next();
        match dec.catch(drop).unwrap() {
            Missing(_) => {}
            Finished(data, _) => {
                assert_eq!(data, to_compare);
                return;
            }
        }
    }
    panic!("not finished within 100 droplets");
}

// Systematic, lossless: exactly ceil(1024 / 512) = 2 droplets suffice.
#[test]
fn systematic_lossless_two_chunks() {
    let payload = random_payload(1024, 1);
    let to_compare = payload.clone();
    let mut enc = Encoder::new(payload, 512, EncoderType::Systematic).unwrap();
    let mut dec = Decoder::new(1024, 512).unwrap();
    match dec.catch(enc.next()).unwrap() {
        Missing(stats) => {
            assert_eq!(stats.cnt_droplets, 1);
            assert_eq!(stats.cnt_chunks, 2);
            assert_eq!(stats.unknown_chunks, 1);
            assert_eq!(stats.overhead, 50);
        }
        Finished(_, _) => panic!("finished too early"),
    }
    match dec.catch(enc.next()).unwrap() {
        Missing(_) => panic!("should be finished after 2 droplets"),
        Finished(data, stats) => {
            assert_eq!(stats.cnt_droplets, 2);
            assert_eq!(stats.unknown_chunks, 0);
            assert_eq!(stats.overhead, 100);
            assert_eq!(data, to_compare);
        }
    }
}

// Systematic with a partial last chunk: no padding leaks into the output.
#[test]
fn systematic_partial_last_chunk() {
    let payload = random_payload(1300, 2);
    let to_compare = payload.clone();
    let mut enc = Encoder::new(payload, 128, EncoderType::Systematic).unwrap();
    let mut dec = Decoder::new(1300, 128).unwrap();
    let mut caught = 0;
    loop {
        caught += 1;
        match dec.catch(enc.next()).unwrap() {
            Missing(_) => {
                assert!(caught < 11);
            }
            Finished(data, _) => {
                assert_eq!(caught, 11);
                assert_eq!(data.len(), 1300);
                assert_eq!(data, to_compare);
                return;
            }
        }
    }
}

// Systematic with a 50% lossy channel, fixed seeds: still reconstructs.
#[test]
fn lossy_channel_fixed_seed() {
    let payload = b"ABCDEFGH".to_vec();
    let to_compare = payload.clone();
    let mut enc = Encoder::with_seed(payload, 2, EncoderType::Systematic, 11).unwrap();
    let mut dec = Decoder::new(8, 2).unwrap();
    let mut loss_rng = StdRng::seed_from_u64(7);
    loop {
        let drop = enc.next();
        if loss_rng.gen::<f32>() > 0.5 {
            match dec.catch(drop).unwrap() {
                Missing(_) => {}
                Finished(data, _) => {
                    assert_eq!(data, to_compare);
                    return;
                }
            }
        }
    }
}

// Two decoders fed the identical droplet stream report identical progress at
// every step and byte-identical reconstructions.
#[test]
fn identical_streams_identical_decoders() {
    let payload = random_payload(300, 3);
    let to_compare = payload.clone();
    let mut enc = Encoder::with_seed(payload, 32, EncoderType::Random, 5).unwrap();
    let mut dec1 = Decoder::new(300, 32).unwrap();
    let mut dec2 = Decoder::new(300, 32).unwrap();
    for _ in 0..500 {
        let drop = enc.next();
        let r1 = dec1.catch(drop.clone()).unwrap();
        let r2 = dec2.catch(drop).unwrap();
        match (r1, r2) {
            (Missing(s1), Missing(s2)) => {
                assert_eq!(s1.cnt_droplets, s2.cnt_droplets);
                assert_eq!(s1.unknown_chunks, s2.unknown_chunks);
            }
            (Finished(d1, _), Finished(d2, _)) => {
                assert_eq!(d1, d2);
                assert_eq!(d1, to_compare);
                return;
            }
            _ => panic!("decoders disagree"),
        }
    }
    panic!("not finished within 500 droplets");
}

// Feeding the same decodable droplet set in two different orders gives the
// same reconstruction.
#[test]
fn order_independent_reconstruction() {
    let payload = random_payload(96, 4);
    let to_compare = payload.clone();
    let mut enc = Encoder::with_seed(payload, 16, EncoderType::Systematic, 9).unwrap();
    let mut drops: Vec<Droplet> = Vec::new();
    for _ in 0..10 {
        drops.push(enc.next());
    }
    let mut dec1 = Decoder::new(96, 16).unwrap();
    let mut dec2 = Decoder::new(96, 16).unwrap();
    let mut out1: Option<Vec<u8>> = None;
    let mut out2: Option<Vec<u8>> = None;
    for drop in drops.iter() {
        if let Finished(data, _) = dec1.catch(drop.clone()).unwrap() {
            out1 = Some(data);
        }
    }
    for drop in drops.iter().rev() {
        if let Finished(data, _) = dec2.catch(drop.clone()).unwrap() {
            out2 = Some(data);
        }
    }
    assert_eq!(out1.unwrap(), to_compare);
    assert_eq!(out2.unwrap(), to_compare);
}

// Once the decoder is finished, it stays finished and keeps reporting the
// same payload.
#[test]
fn completion_is_idempotent() {
    let payload = b"idempotent completion".to_vec();
    let len = payload.len();
    let to_compare = payload.clone();
    let mut enc = Encoder::with_seed(payload, 4, EncoderType::Systematic, 13).unwrap();
    let mut dec = Decoder::new(len, 4).unwrap();
    let mut finished: Option<Vec<u8>> = None;
    while finished.is_none() {
        if let Finished(data, _) = dec.catch(enc.next()).unwrap() {
            finished = Some(data);
        }
    }
    assert_eq!(finished.unwrap(), to_compare);
    for _ in 0..20 {
        match dec.catch(enc.next()).unwrap() {
            Missing(_) => panic!("decoder fell back to missing after completion"),
            Finished(data, _) => assert_eq!(data, to_compare),
        }
    }
}

// The neighbor-set generator is a pure function of (seed, k, degree).
#[test]
fn sampling_is_deterministic() {
    let a = sample_neighbors(12345, 50, 7).unwrap();
    let b = sample_neighbors(12345, 50, 7).unwrap();
    assert_eq!(a, b);
    assert_eq!(a.len(), 7);
    for i in 0..a.len() {
        assert!(a[i] < 50);
        for j in 0..i {
            assert_ne!(a[j], a[i]);
        }
    }
}

// The generator rejects a zero chunk count and an oversized degree.
#[test]
fn sampling_rejects_bad_arguments() {
    assert_eq!(sample_neighbors(1, 0, 0).unwrap_err(), LtError::InvalidArgument);
    assert_eq!(sample_neighbors(1, 3, 4).unwrap_err(), LtError::InvalidArgument);
    let full = sample_neighbors(99, 5, 5).unwrap();
    assert_eq!(full.len(), 5);
}

// Every degree the Soliton samplers emit lies in [1, k].
#[test]
fn soliton_degrees_in_range() {
    let mut sol = IdealSoliton::new(10, 77).unwrap();
    for _ in 0..1000 {
        let d = sol.next();
        assert!(1 <= d && d <= 10);
    }
    let mut sol32 = Soliton::new(10, 77).unwrap();
    for _ in 0..1000 {
        let d = sol32.next();
        assert!(1 <= d && d <= 10);
    }
    assert!(matches!(IdealSoliton::new(0, 1), Err(LtError::InvalidArgument)));
    assert!(matches!(Soliton::new(0, 1), Err(LtError::InvalidArgument)));
}

// Two equally seeded samplers emit identical degree sequences.
#[test]
fn soliton_streams_are_reproducible() {
    let mut a = IdealSoliton::new(10, 99).unwrap();
    let mut b = IdealSoliton::new(10, 99).unwrap();
    for _ in 0..200 {
        assert_eq!(a.next(), b.next());
    }
    let mut c = Soliton::new(10, 99).unwrap();
    let mut d = Soliton::new(10, 99).unwrap();
    for _ in 0..200 {
        assert_eq!(c.next(), d.next());
    }
}

// Constructors reject invalid configuration before allocating any state.
#[test]
fn constructors_reject_invalid_arguments() {
    assert!(matches!(
        Encoder::new(Vec::new(), 8, EncoderType::Random),
        Err(LtError::InvalidArgument)
    ));
    assert!(matches!(
        Encoder::new(vec![1u8], 0, EncoderType::Random),
        Err(LtError::InvalidArgument)
    ));
    assert!(matches!(Decoder::new(0, 8), Err(LtError::InvalidArgument)));
    assert!(matches!(Decoder::new(8, 0), Err(LtError::InvalidArgument)));
    // a geometry whose buffer cannot fit in memory is rejected up front
    assert!(matches!(Decoder::new(usize::MAX, 2), Err(LtError::InvalidArgument)));
}

// Malformed droplets are rejected with InvalidDroplet and leave the decoder
// unchanged.
#[test]
fn invalid_droplets_are_rejected() {
    let mut dec = Decoder::new(8, 2).unwrap(); // k = 4 chunks of 2 bytes
    // wrong payload length
    let d = Droplet::new(DropType::Edges(vec![0]), vec![0u8; 3]);
    assert_eq!(dec.catch(d).unwrap_err(), LtError::InvalidDroplet);
    // degree above the chunk count
    let d = Droplet::new(DropType::Seeded(1, 5), vec![0u8; 2]);
    assert_eq!(dec.catch(d).unwrap_err(), LtError::InvalidDroplet);
    // duplicate explicit index
    let d = Droplet::new(DropType::Edges(vec![1, 1]), vec![0u8; 2]);
    assert_eq!(dec.catch(d).unwrap_err(), LtError::InvalidDroplet);
    // out-of-range explicit index
    let d = Droplet::new(DropType::Edges(vec![4]), vec![0u8; 2]);
    assert_eq!(dec.catch(d).unwrap_err(), LtError::InvalidDroplet);
    // the rejections did not count as received droplets
    let d = Droplet::new(DropType::Edges(vec![0]), vec![65u8, 66]);
    match dec.catch(d).unwrap() {
        Missing(stats) => {
            assert_eq!(stats.cnt_droplets, 1);
            assert_eq!(stats.cnt_chunks, 4);
            assert_eq!(stats.unknown_chunks, 3);
            assert_eq!(stats.overhead, 25);
        }
        Finished(_, _) => panic!("cannot be finished"),
    }
}

// Explicit droplets assembled by hand decode like systematic ones.
#[test]
fn explicit_droplets_reconstruct() {
    let mut dec = Decoder::new(4, 2).unwrap(); // chunks: [10, 20] and [30, 40]
    let d0 = Droplet::new(DropType::Edges(vec![0]), vec![10u8, 20]);
    // XOR of both chunks
    let d01 = Droplet::new(DropType::Edges(vec![0, 1]), vec![10u8 ^ 30, 20 ^ 40]);
    match dec.catch(d01).unwrap() {
        Missing(stats) => assert_eq!(stats.unknown_chunks, 2),
        Finished(_, _) => panic!("cannot be finished"),
    }
    match dec.catch(d0).unwrap() {
        Missing(_) => panic!("two independent droplets decode two chunks"),
        Finished(data, stats) => {
            assert_eq!(stats.cnt_droplets, 2);
            assert_eq!(data, vec![10u8, 20, 30, 40]);
        }
    }
}
