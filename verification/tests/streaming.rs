use protocrap::base::Object;
use protocrap::reflection::DescriptorPool;
use protocrap::samples::{make_large, make_medium, make_small, test_pool};
use protocrap::streaming::{encode_flat, encode_vec, EncodeError, ResumeableDecode, ResumeableEncode, ResumeResult};

const STACK_DEPTH: usize = 32;

#[derive(Clone, Copy, Debug)]
enum ChunkStrategy {
    Uniform(usize),
    SmallOnly,
    LargeOnly,
    Alternating,
    Random,
}

/// A small deterministic generator for chunk sizes.
struct Lcg(u64);

impl Lcg {
    fn gen_range(&mut self, lo: usize, hi: usize) -> usize {
        self.0 = self.0.wrapping_mul(6364136223846793005).wrapping_add(1442695040888963407);
        lo + ((self.0 >> 33) as usize) % (hi - lo)
    }
}

fn chunks(data: &[u8], strategy: ChunkStrategy, seed: u64) -> Vec<&[u8]> {
    let mut rng = Lcg(seed);
    let mut toggle = false;
    let mut pos = 0;
    let mut out = Vec::new();
    while pos < data.len() {
        let size = match strategy {
            ChunkStrategy::Uniform(size) => size,
            ChunkStrategy::SmallOnly => rng.gen_range(1, 16),
            ChunkStrategy::LargeOnly => rng.gen_range(16, 129),
            ChunkStrategy::Alternating => {
                toggle = !toggle;
                if toggle {
                    rng.gen_range(1, 16)
                } else {
                    rng.gen_range(16, 129)
                }
            }
            ChunkStrategy::Random => rng.gen_range(1, 129),
        };
        let end = (pos + size).min(data.len());
        out.push(&data[pos..end]);
        pos = end;
    }
    out
}

fn test_table(pool: &DescriptorPool) -> usize {
    pool.find_table(&String::from("Test")).expect("Test is in the pool")
}

fn assert_chunked_decode(pool: &DescriptorPool, t: usize, msg: &Object, strategy: ChunkStrategy, chunk_seed: u64) {
    let encoded = encode_vec(&pool.tables, t, msg, STACK_DEPTH).expect("encode should succeed");
    let mut decoded = Object::create(&pool.tables[t]);
    let mut decoder = ResumeableDecode::new(&decoded, isize::MAX as usize, STACK_DEPTH);
    for chunk in chunks(&encoded, strategy, chunk_seed) {
        if !decoder.resume(&pool.tables, t, &mut decoded, chunk) {
            panic!("decode failed at chunk, strategy={:?}, chunk_seed={}", strategy, chunk_seed);
        }
    }
    if !decoder.finish(&pool.tables, t, &mut decoded) {
        panic!("decode finish failed, strategy={:?}, chunk_seed={}", strategy, chunk_seed);
    }
    let reencoded = encode_vec(&pool.tables, t, &decoded, STACK_DEPTH).expect("reencode should succeed");
    assert_eq!(encoded, reencoded, "roundtrip mismatch, strategy={:?}, chunk_seed={}", strategy, chunk_seed);
}

#[test]
fn test_chunked_decode_fixed_messages() {
    let strategies = [
        ChunkStrategy::Uniform(1),
        ChunkStrategy::Uniform(7),
        ChunkStrategy::Uniform(16),
        ChunkStrategy::SmallOnly,
        ChunkStrategy::LargeOnly,
        ChunkStrategy::Alternating,
        ChunkStrategy::Random,
    ];
    let pool = test_pool();
    let t = test_table(&pool);
    for strategy in strategies {
        for seed in 0..10 {
            assert_chunked_decode(&pool, t, &make_small(), strategy, seed);
            assert_chunked_decode(&pool, t, &make_medium(), strategy, seed);
            assert_chunked_decode(&pool, t, &make_large(), strategy, seed);
        }
    }
}

#[test]
fn resume_refuses_pieces_past_the_limit() {
    let pool = test_pool();
    let t = test_table(&pool);
    let mut obj = Object::create(&pool.tables[t]);
    let mut decoder = ResumeableDecode::new(&obj, 4, STACK_DEPTH);
    assert!(decoder.resume(&pool.tables, t, &mut obj, &[0x08, 0x01]));
    assert!(!decoder.resume(&pool.tables, t, &mut obj, &[0x08, 0x02, 0x08]));
    assert!(!decoder.resume(&pool.tables, t, &mut obj, &[]));
    assert!(!decoder.finish(&pool.tables, t, &mut obj));
}

#[test]
fn resume_refuses_field_number_zero_at_once() {
    let pool = test_pool();
    let t = test_table(&pool);
    let mut obj = Object::create(&pool.tables[t]);
    let mut decoder = ResumeableDecode::new(&obj, 1000, STACK_DEPTH);
    assert!(!decoder.resume(&pool.tables, t, &mut obj, &[0x02]));
    assert!(!decoder.resume(&pool.tables, t, &mut obj, &[0x00]));
    assert!(!decoder.finish(&pool.tables, t, &mut obj));
}

#[test]
fn resume_decodes_each_field_once_its_bytes_are_there() {
    let pool = test_pool();
    let t = test_table(&pool);
    let mut obj = Object::create(&pool.tables[t]);
    let mut decoder = ResumeableDecode::new(&obj, 1000, STACK_DEPTH);
    // x = 300, cut inside its value
    assert!(decoder.resume(&pool.tables, t, &mut obj, &[0x08, 0xac]));
    assert!(!obj.has_bit(0));
    assert!(decoder.resume(&pool.tables, t, &mut obj, &[0x02, 0x1a, 0x02, b'h']));
    assert!(obj.has_bit(0));
    assert_eq!(obj.get(0), 300);
    assert!(!obj.has_bit(2));
    assert!(decoder.resume(&pool.tables, t, &mut obj, &[b'i']));
    assert_eq!(obj.bytes(2), b"hi");
    assert!(decoder.finish(&pool.tables, t, &mut obj));
    assert_eq!(obj.get(0), 300);
    assert_eq!(obj.bytes(2), b"hi");
}

#[test]
fn resume_refuses_a_complete_field_that_does_not_decode() {
    let pool = test_pool();
    let t = test_table(&pool);
    let mut obj = Object::create(&pool.tables[t]);
    let mut decoder = ResumeableDecode::new(&obj, 1000, STACK_DEPTH);
    // child1 (field 4) holding a field-number-zero tag
    assert!(!decoder.resume(&pool.tables, t, &mut obj, &[0x22, 0x01, 0x00]));
}

#[test]
fn encode_flat_reports_small_buffers_and_depth() {
    let pool = test_pool();
    let t = test_table(&pool);
    let msg = make_medium();
    let data = encode_vec(&pool.tables, t, &msg, STACK_DEPTH).unwrap();
    let mut small = vec![0u8; data.len() - 1];
    assert!(matches!(encode_flat(&pool.tables, t, &msg, STACK_DEPTH, &mut small), Err(EncodeError::BufferTooSmall)));
    let mut exact = vec![0u8; data.len()];
    assert!(matches!(encode_flat(&pool.tables, t, &msg, STACK_DEPTH, &mut exact), Ok(0)));
    assert_eq!(exact, data);
    assert!(matches!(encode_flat(&pool.tables, t, &msg, 0, &mut exact), Err(EncodeError::TooDeep)));
}

#[test]
fn resumable_encode_writes_in_pieces() {
    let pool = test_pool();
    let t = test_table(&pool);
    let msg = make_large();
    let data = encode_vec(&pool.tables, t, &msg, STACK_DEPTH).unwrap();
    let mut enc = ResumeableEncode::new(&pool.tables, t, &msg, STACK_DEPTH);
    // The encoder fills each buffer from its end, last bytes first.
    let mut pieces: Vec<Vec<u8>> = Vec::new();
    loop {
        let mut buf = [0u8; 13];
        match enc.resume_encode(&mut buf).expect("encodes") {
            ResumeResult::Done(n) => {
                pieces.push(buf[n..].to_vec());
                break;
            }
            ResumeResult::NeedsMoreBuffer => pieces.push(buf.to_vec()),
        }
    }
    pieces.reverse();
    let out: Vec<u8> = pieces.concat();
    assert_eq!(out, data);
}
