use fountaincode::ltcode::CatchResult::Finished;
use fountaincode::ltcode::CatchResult::Missing;
use fountaincode::ltcode::Decoder;
use fountaincode::ltcode::Encoder;
use fountaincode::ltcode::EncoderType;

use rand::distributions::Alphanumeric;
use rand::thread_rng;
use rand::Rng;

fn encode_decode_random(total_len: usize, chunk_len: usize) {
    let buf: Vec<u8> = thread_rng().sample_iter(&Alphanumeric).take(total_len).collect();
    let len = buf.len();
    let to_compare = buf.clone();

    let mut enc = Encoder::new(buf, chunk_len, EncoderType::Random).unwrap();
    let mut dec = Decoder::new(len, chunk_len).unwrap();

    loop {
        let drop = enc.next();
        match dec.catch(drop).unwrap() {
            Missing(_stats) => {}
            Finished(data, _stats) => {
                assert_eq!(to_compare.len(), data.len());
                for i in 0..len {
                    assert_eq!(to_compare[i], data[i]);
                }
                return;
            }
        }
    }
}

fn encode_decode_systematic(total_len: usize, chunk_len: usize) {
    let buf: Vec<u8> = thread_rng().sample_iter(&Alphanumeric).take(total_len).collect();
    let len = buf.len();
    let to_compare = buf.clone();

    let mut enc = Encoder::new(buf, chunk_len, EncoderType::Systematic).unwrap();
    let mut dec = Decoder::new(len, chunk_len).unwrap();

    let mut cnt_drops = 0;

    loop {
        let drop = enc.next();
        cnt_drops += 1;
        match dec.catch(drop).unwrap() {
            Missing(stats) => {
                // a systematic encoder and no loss on the channel should only
                // need k symbols
                assert_eq!(stats.cnt_chunks - stats.unknown_chunks, cnt_drops);
            }
            Finished(data, stats) => {
                assert_eq!(to_compare.len(), data.len());
                assert_eq!(stats.cnt_chunks, cnt_drops);
                for i in 0..len {
                    assert_eq!(to_compare[i], data[i]);
                }
                return;
            }
        }
    }
}

fn encode_decode_systematic_with_loss(total_len: usize, chunk_len: usize, loss: f32) {
    let buf: Vec<u8> = thread_rng().sample_iter(&Alphanumeric).take(total_len).collect();
    let len = buf.len();
    let to_compare = buf.clone();

    let mut enc = Encoder::new(buf, chunk_len, EncoderType::Systematic).unwrap();
    let mut dec = Decoder::new(len, chunk_len).unwrap();

    let mut loss_rng = thread_rng();

    loop {
        let drop = enc.next();
        if loss_rng.gen::<f32>() > loss {
            match dec.catch(drop).unwrap() {
                Missing(_stats) => {}
                Finished(data, _stats) => {
                    assert_eq!(to_compare.len(), data.len());
                    for i in 0..len {
                        assert_eq!(to_compare[i], data[i]);
                    }
                    return;
                }
            }
        }
    }
}

#[test]
fn test_encode_decode_simple() {
    encode_decode_random(1_024, 512);
}

#[test]
fn encode_decode_with_uneven_sizes_random() {
    for size in 1000..1100 {
        for chunk in 100..130 {
            encode_decode_random(size, chunk);
        }
    }
}

#[test]
fn small_test_systematic_encoder() {
    encode_decode_systematic(1300, 128);
}

#[test]
fn combinations_encode_decode_with_uneven_sizes_systematic() {
    for size in 1000..1100 {
        for chunk in 100..130 {
            encode_decode_systematic(size, chunk);
        }
    }
}

#[test]
fn small_encode_decode_with_loss_begin_with_systematic() {
    encode_decode_systematic_with_loss(8, 2, 0.1);
}

#[test]
fn combinations_encode_decode_with_loss_begin_with_systematic() {
    for size in 1000..1100 {
        for chunk in 100..130 {
            for loss in vec![0.1, 0.3, 0.5, 0.9] {
                encode_decode_systematic_with_loss(size, chunk, loss);
            }
        }
    }
}
