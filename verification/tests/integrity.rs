use devil_connection_patcher::asar::hex::{hex, nibble};
use devil_connection_patcher::asar::integrity::{placeholder, to_json, Integrity, IntegrityHasher};
use devil_connection_patcher::asar::json::{JsonNumber, JsonValue};
use devil_connection_patcher::asar::BLOCK_SIZE;

fn to_serde(v: &JsonValue) -> serde_json::Value {
    match v {
        JsonValue::Null => serde_json::Value::Null,
        JsonValue::Bool(b) => serde_json::Value::Bool(*b),
        JsonValue::Number(JsonNumber::Unsigned(n)) => serde_json::Value::from(*n),
        JsonValue::Number(JsonNumber::Negative(n)) => serde_json::Value::from(*n),
        JsonValue::Number(JsonNumber::Float(t)) => serde_json::from_str(t).unwrap(),
        JsonValue::Str(s) => serde_json::Value::String(s.clone()),
        JsonValue::Array(items) => serde_json::Value::Array(items.iter().map(to_serde).collect()),
        JsonValue::Object(members) => {
            let mut m = serde_json::Map::new();
            for (k, x) in members {
                m.insert(k.clone(), to_serde(x));
            }
            serde_json::Value::Object(m)
        }
    }
}

#[test]
fn single_block_hash_matches_whole_file_hash() {
    let data = b"hello asar";
    let mut h = IntegrityHasher::new();
    h.update(data);
    let i = h.finalize();
    assert_eq!(i.blocks.len(), 1);
    assert_eq!(i.hash, i.blocks[0]);
}

#[test]
fn multi_block_split() {
    let data = vec![0xabu8; BLOCK_SIZE + 100];
    let mut h = IntegrityHasher::new();
    h.update(&data);
    let i = h.finalize();
    assert_eq!(i.blocks.len(), 2);
    assert_ne!(i.hash, i.blocks[0]);
}

#[test]
fn placeholder_byte_length_matches_final() {
    let size = BLOCK_SIZE as u64 * 3 + 42;
    let ph = placeholder(size);
    let real = to_json(&Integrity {
        hash: "a".repeat(64),
        blocks: vec!["b".repeat(64); 4],
    });
    let ph_bytes = serde_json::to_vec(&to_serde(&ph)).unwrap();
    let real_bytes = serde_json::to_vec(&to_serde(&real)).unwrap();
    assert_eq!(ph_bytes.len(), real_bytes.len());
}

#[test]
fn known_sha256_of_hello() {
    let mut h = IntegrityHasher::new();
    h.update(b"hello");
    let i = h.finalize();
    assert_eq!(
        i.hash,
        "2cf24dba5fb0a30e26e83b2ac5b9e29e1b161e5c1fa7425e73043362938b9824"
    );
    assert_eq!(i.blocks, vec![i.hash.clone()]);
}

#[test]
fn empty_input_has_one_block() {
    let h = IntegrityHasher::new();
    let i = h.finalize();
    assert_eq!(i.blocks.len(), 1);
    assert_eq!(
        i.hash,
        "e3b0c44298fc1c149afbf4c8996fb92427ae41e4649b934ca495991b7852b855"
    );
    assert_eq!(i.hash, i.blocks[0]);
}

#[test]
fn split_updates_equal_one_update() {
    let data = vec![7u8; BLOCK_SIZE + 5];
    let mut a = IntegrityHasher::new();
    a.update(&data);
    let a = a.finalize();
    let mut b = IntegrityHasher::new();
    b.update(&data[..3]);
    b.update(&data[3..BLOCK_SIZE + 1]);
    b.update(&data[BLOCK_SIZE + 1..]);
    let b = b.finalize();
    assert_eq!(a.hash, b.hash);
    assert_eq!(a.blocks, b.blocks);
}

#[test]
fn exact_block_size_gives_one_block() {
    let data = vec![1u8; BLOCK_SIZE];
    let mut h = IntegrityHasher::new();
    h.update(&data);
    let i = h.finalize();
    assert_eq!(i.blocks.len(), 1);
    assert_eq!(i.hash, i.blocks[0]);
}

#[test]
fn placeholder_shape() {
    let v = to_serde(&placeholder(0));
    assert_eq!(v["algorithm"], "SHA256");
    assert_eq!(v["blockSize"], 4194304);
    assert_eq!(v["hash"], "0".repeat(64));
    assert_eq!(v["blocks"].as_array().unwrap().len(), 1);
    let v = to_serde(&placeholder(BLOCK_SIZE as u64 + 1));
    assert_eq!(v["blocks"].as_array().unwrap().len(), 2);
}

#[test]
fn hex_encoding() {
    assert_eq!(hex(&[0x00, 0x0f, 0xa5, 0xff]), "000fa5ff");
    assert_eq!(hex(&[]), "");
    assert_eq!(nibble(0), '0');
    assert_eq!(nibble(9), '9');
    assert_eq!(nibble(10), 'a');
    assert_eq!(nibble(15), 'f');
}
