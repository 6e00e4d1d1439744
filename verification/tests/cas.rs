use simple_cas::chunked::{ChunkedStore, Lookup, CHUNK_SIZE};
use simple_cas::digest::ContentHash;
use simple_cas::durable::PersistentStore;
use simple_cas::layout::{IoFault, ObjectPath, ReadOutcome, StoreError, WriteAction};
use simple_cas::manifest::ChunkedFile;
use simple_cas::simple_store::SimpleStore;
use std::collections::HashMap;

const EMPTY_DIGEST: &str = "e3b0c44298fc1c149afbf4c8996fb92427ae41e4649b934ca495991b7852b855";
const ABC_DIGEST: &str = "ba7816bf8f01cfea414140de5dae2223b00361a396177a9cb410ff61f20015ad";

fn key(path: &ObjectPath) -> String {
    let mut text = path.root.clone();
    for part in &path.parts {
        text.push('/');
        text.push_str(part);
    }
    text
}

fn read(disk: &HashMap<String, Vec<u8>>, path: &ObjectPath) -> ReadOutcome {
    match disk.get(&key(path)) {
        Some(bytes) => ReadOutcome::Found(bytes.clone()),
        None => ReadOutcome::Absent,
    }
}

fn carry_out(disk: &mut HashMap<String, Vec<u8>>, action: WriteAction, data: &[u8]) -> usize {
    match action {
        WriteAction::Skip => 0,
        WriteAction::WriteAndRename { parent, temp, target } => {
            assert_eq!(parent.parts.len() + 1, target.parts.len());
            disk.insert(key(&temp), data.to_vec());
            let written = disk.remove(&key(&temp)).unwrap();
            disk.insert(key(&target), written);
            1
        }
    }
}

fn durable_put(
    store: &PersistentStore,
    disk: &mut HashMap<String, Vec<u8>>,
    data: &[u8],
) -> (ContentHash, usize) {
    let placement = store.put(data);
    let present = disk.contains_key(&key(&placement.target));
    let (hash, action) = placement.settle(present);
    let writes = carry_out(disk, action, data);
    (hash, writes)
}

fn durable_get(
    store: &PersistentStore,
    disk: &HashMap<String, Vec<u8>>,
    hash: &ContentHash,
) -> Result<Option<Vec<u8>>, StoreError> {
    store.get(hash, read(disk, &store.hash_to_path(hash)))
}

fn store_file(
    store: &ChunkedStore,
    disk: &mut HashMap<String, Vec<u8>>,
    data: &[u8],
) -> (ContentHash, usize) {
    let plan = store.store_file(data);
    let mut writes = 0;
    for object in plan.objects {
        let present = disk.contains_key(&key(&object.placement.target));
        let (_, action) = object.placement.settle(present);
        writes += carry_out(disk, action, &object.bytes);
    }
    (plan.top, writes)
}

fn get_file(
    store: &ChunkedStore,
    disk: &HashMap<String, Vec<u8>>,
    hash: &ContentHash,
) -> Result<Option<Vec<u8>>, StoreError> {
    match store.get_file(hash, read(disk, &store.chunk_path(hash)))? {
        Lookup::NotFound => Ok(None),
        Lookup::Whole(bytes) => Ok(Some(bytes)),
        Lookup::Indexed(file) => {
            let outcomes: Vec<ReadOutcome> =
                file.chunks.iter().map(|chunk| read(disk, &store.chunk_path(chunk))).collect();
            store.assemble(&file, &outcomes)
        }
    }
}

#[test]
fn digest_is_lowercase_hex_of_sha256() {
    assert_eq!(ContentHash::from_bytes(b"").as_str(), EMPTY_DIGEST);
    assert_eq!(ContentHash::from_bytes(b"abc").as_str(), ABC_DIGEST);
    assert_eq!(
        ContentHash::from_str("hello world").as_str(),
        "b94d27b9934d3e08a52e52d7da7dabfac484efe37a5380ee9088f7ace2efcde9"
    );
}

#[test]
fn digest_is_deterministic() {
    let data = vec![7u8; 1000];
    let first = ContentHash::from_bytes(&data);
    let second = ContentHash::from_bytes(&data);
    assert_eq!(first, second);
    assert!(first.same_as(&second));
    assert_eq!(first.duplicate(), first);
    assert_eq!(ContentHash::from_str("abc"), ContentHash::from_bytes(b"abc"));
    assert!(!first.same_as(&ContentHash::from_bytes(b"other")));
    assert_eq!(ContentHash::from_text(ABC_DIGEST.to_string()), ContentHash::from_bytes(b"abc"));
}

#[test]
fn simple_store_round_trip() {
    let mut store = SimpleStore::new();
    let missing = ContentHash::from_bytes(b"never stored");
    assert!(!store.contains(&missing));
    assert_eq!(store.get(&missing), None);
    let hash = store.put(b"abc".to_vec());
    assert_eq!(hash.as_str(), ABC_DIGEST);
    assert!(store.contains(&hash));
    assert_eq!(store.get(&hash), Some(&b"abc".to_vec()));
    let again = store.put(b"abc".to_vec());
    assert_eq!(again, hash);
    assert_eq!(store.get(&hash), Some(&b"abc".to_vec()));
    let empty = store.put(Vec::new());
    assert_eq!(empty.as_str(), EMPTY_DIGEST);
    assert_eq!(store.get(&empty), Some(&Vec::new()));
}

#[test]
fn object_paths_are_sharded() {
    let store = PersistentStore::new("root".to_string());
    assert_eq!(store.root(), "root");
    let path = store.hash_to_path(&ContentHash::from_bytes(b"abc"));
    assert_eq!(path.root, "root");
    assert_eq!(path.parts, vec!["objects", "ba", "78", &ABC_DIGEST[4..]]);
    let short = store.hash_to_path(&ContentHash::from_text("abc".to_string()));
    assert_eq!(short.parts, vec!["objects", "abc"]);
    let four = store.hash_to_path(&ContentHash::from_text("abcd".to_string()));
    assert_eq!(four.parts, vec!["objects", "ab", "cd", ""]);
    assert_eq!(path.parent().parts, vec!["objects", "ba", "78"]);
    let temp = path.temp();
    assert_eq!(temp.parts[3], format!("{}.tmp", &ABC_DIGEST[4..]));
    assert_eq!(temp.parts[..3], path.parts[..3]);
    assert_eq!(path.duplicate(), path);

    let chunked = ChunkedStore::new("root".to_string());
    assert_eq!(chunked.root(), "root");
    let chunk = chunked.chunk_path(&ContentHash::from_bytes(b"abc"));
    assert_eq!(chunk.parts, vec!["chunks", "ba", &ABC_DIGEST[2..]]);
}

#[test]
fn put_writes_once_through_a_temporary_file() {
    let store = PersistentStore::new("root".to_string());
    let placement = store.put(b"abc");
    assert_eq!(placement.hash.as_str(), ABC_DIGEST);
    let target = placement.target.clone();
    let (hash, action) = placement.clone().settle(false);
    assert_eq!(hash.as_str(), ABC_DIGEST);
    assert_eq!(
        action,
        WriteAction::WriteAndRename {
            parent: target.parent(),
            temp: target.temp(),
            target: target.clone()
        }
    );
    let (hash, action) = placement.settle(true);
    assert_eq!(hash.as_str(), ABC_DIGEST);
    assert_eq!(action, WriteAction::Skip);
}

#[test]
fn durable_put_is_idempotent() {
    let store = PersistentStore::new("root".to_string());
    let mut disk = HashMap::new();
    let (first, writes) = durable_put(&store, &mut disk, b"payload");
    assert_eq!(writes, 1);
    let snapshot = disk.clone();
    let (second, writes) = durable_put(&store, &mut disk, b"payload");
    assert_eq!(writes, 0);
    assert_eq!(first, second);
    assert_eq!(disk, snapshot);
    assert_eq!(disk.len(), 1);
}

#[test]
fn durable_round_trip() {
    let store = PersistentStore::new("root".to_string());
    let mut disk = HashMap::new();
    let data: Vec<u8> = (0..5000u32).map(|n| (n % 251) as u8).collect();
    let (hash, _) = durable_put(&store, &mut disk, &data);
    assert_eq!(durable_get(&store, &disk, &hash), Ok(Some(data)));
}

#[test]
fn empty_payload_round_trip() {
    let store = PersistentStore::new("root".to_string());
    let mut disk = HashMap::new();
    let (hash, _) = durable_put(&store, &mut disk, b"");
    assert_eq!(hash.as_str(), EMPTY_DIGEST);
    assert_eq!(durable_get(&store, &disk, &hash), Ok(Some(Vec::new())));

    let chunked = ChunkedStore::new("root".to_string());
    let (hash, _) = store_file(&chunked, &mut disk, b"");
    assert_eq!(hash.as_str(), EMPTY_DIGEST);
    assert_eq!(
        chunked.get_chunk(&hash, read(&disk, &chunked.chunk_path(&hash))),
        Ok(Some(Vec::new()))
    );
}

#[test]
fn tampering_is_detected() {
    let store = PersistentStore::new("root".to_string());
    let mut disk = HashMap::new();
    let (hash, _) = durable_put(&store, &mut disk, b"genuine");
    disk.insert(key(&store.hash_to_path(&hash)), b"altered".to_vec());
    assert_eq!(durable_get(&store, &disk, &hash), Err(StoreError::Corrupted));
    assert_eq!(
        store.get(&hash, ReadOutcome::Found(b"genuine".to_vec())),
        Ok(Some(b"genuine".to_vec()))
    );
}

#[test]
fn never_stored_is_not_found() {
    let store = PersistentStore::new("root".to_string());
    let disk = HashMap::new();
    let hash = ContentHash::from_bytes(b"never stored");
    assert_eq!(durable_get(&store, &disk, &hash), Ok(None));
    let chunked = ChunkedStore::new("root".to_string());
    assert_eq!(get_file(&chunked, &disk, &hash), Ok(None));
    assert_eq!(chunked.get_file(&hash, ReadOutcome::Absent), Ok(Lookup::NotFound));
}

#[test]
fn io_faults_pass_through() {
    let store = PersistentStore::new("root".to_string());
    let chunked = ChunkedStore::new("root".to_string());
    let hash = ContentHash::from_bytes(b"abc");
    let fault = IoFault { code: Some(13), message: "permission denied".to_string() };
    assert_eq!(fault.duplicate(), fault);
    assert_eq!(
        store.get(&hash, ReadOutcome::Failed(fault.clone())),
        Err(StoreError::Io(fault.clone()))
    );
    assert_eq!(
        chunked.get_chunk(&hash, ReadOutcome::Failed(fault.clone())),
        Err(StoreError::Io(fault.clone()))
    );
    assert_eq!(
        chunked.get_file(&hash, ReadOutcome::Failed(fault.clone())),
        Err(StoreError::Io(fault.clone()))
    );
    let file = ChunkedFile { total_size: 3, chunks: vec![hash.clone(), hash] };
    let outcomes = vec![ReadOutcome::Found(b"abc".to_vec()), ReadOutcome::Failed(fault.clone())];
    assert_eq!(chunked.assemble(&file, &outcomes), Err(StoreError::Io(fault)));
}

#[test]
fn manifest_encoding_is_fixed() {
    let file = ChunkedFile {
        total_size: 0x0102,
        chunks: vec![
            ContentHash::from_text("ab".to_string()),
            ContentHash::from_text("\u{e9}".to_string()),
        ],
    };
    let mut expected: Vec<u8> = vec![2, 1, 0, 0, 0, 0, 0, 0];
    expected.extend_from_slice(&[2, 0, 0, 0, 0, 0, 0, 0]);
    expected.extend_from_slice(&[2, 0, 0, 0, 0, 0, 0, 0, b'a', b'b']);
    expected.extend_from_slice(&[2, 0, 0, 0, 0, 0, 0, 0, 0xc3, 0xa9]);
    let bytes = file.encode();
    assert_eq!(bytes, expected);
    assert_eq!(ChunkedFile::decode(&bytes), Some(file.clone()));
    let mut longer = bytes.clone();
    longer.extend_from_slice(b"behind");
    assert_eq!(ChunkedFile::decode(&longer), Some(file));
    assert_eq!(ChunkedFile::decode(&bytes[..bytes.len() - 1]), None);
    assert_eq!(ChunkedFile::decode(b"plain text"), None);
    assert_eq!(
        ChunkedFile::decode(&[0u8; 16]),
        Some(ChunkedFile { total_size: 0, chunks: Vec::new() })
    );
    let bad_text = [0, 0, 0, 0, 0, 0, 0, 0, 1, 0, 0, 0, 0, 0, 0, 0, 1, 0, 0, 0, 0, 0, 0, 0, 0xff];
    assert_eq!(ChunkedFile::decode(&bad_text), None);
}

#[test]
fn chunk_boundary() {
    let store = ChunkedStore::new("root".to_string());
    assert_eq!(CHUNK_SIZE, 64 * 1024);
    let exact = vec![1u8; CHUNK_SIZE];
    let plan = store.store_file(&exact);
    assert_eq!(plan.objects.len(), 1);
    assert_eq!(plan.objects[0].bytes, exact);
    assert_eq!(plan.top, ContentHash::from_bytes(&exact));
    assert_eq!(plan.objects[0].placement, store.store_chunk(&exact));

    let over = vec![1u8; CHUNK_SIZE + 1];
    let plan = store.store_file(&over);
    assert_eq!(plan.objects.len(), 3);
    assert_eq!(plan.objects[0].bytes.len(), CHUNK_SIZE);
    assert_eq!(plan.objects[1].bytes, vec![1u8]);
    let index = ChunkedFile::decode(&plan.objects[2].bytes).unwrap();
    assert_eq!(index.total_size, (CHUNK_SIZE + 1) as u64);
    assert_eq!(
        index.chunks,
        vec![ContentHash::from_bytes(&exact), ContentHash::from_bytes(&[1u8])]
    );
    assert_eq!(plan.top, ContentHash::from_bytes(&plan.objects[2].bytes));
}

#[test]
fn test_chunked_storage() {
    let store = ChunkedStore::new("root".to_string());
    let mut disk = HashMap::new();
    let large_file = vec![42u8; 200 * 1024];

    let plan = store.store_file(&large_file);
    let sizes: Vec<usize> = plan.objects.iter().map(|object| object.bytes.len()).collect();
    assert_eq!(sizes[..4], [65536, 65536, 65536, 8192]);
    assert_eq!(plan.objects.len(), 5);
    let index = ChunkedFile::decode(&plan.objects[4].bytes).unwrap();
    assert_eq!(index.total_size, 204800);
    assert_eq!(index.chunks.len(), 4);

    let (hash, writes) = store_file(&store, &mut disk, &large_file);
    assert_eq!(writes, 3);
    let retrieved = get_file(&store, &disk, &hash).unwrap().unwrap();
    assert_eq!(retrieved, large_file);

    let snapshot = disk.clone();
    let (hash2, writes) = store_file(&store, &mut disk, &large_file);
    assert_eq!(hash, hash2);
    assert_eq!(writes, 0);
    assert_eq!(disk, snapshot);

    let mut modified_file = large_file.clone();
    modified_file[1000] = 99;
    let (hash3, _) = store_file(&store, &mut disk, &modified_file);
    assert_ne!(hash, hash3);
    assert_eq!(get_file(&store, &disk, &hash3), Ok(Some(modified_file)));
    assert_eq!(get_file(&store, &disk, &hash), Ok(Some(large_file)));
}

#[test]
fn chunked_round_trip_of_varied_content() {
    let store = ChunkedStore::new("root".to_string());
    let mut disk = HashMap::new();
    let data: Vec<u8> = (0..150_000u32).map(|n| (n.wrapping_mul(2654435761) >> 13) as u8).collect();
    let (hash, writes) = store_file(&store, &mut disk, &data);
    assert_eq!(writes, 4);
    assert_eq!(get_file(&store, &disk, &hash), Ok(Some(data)));
    let small = b"a small file".to_vec();
    let (hash, writes) = store_file(&store, &mut disk, &small);
    assert_eq!(writes, 1);
    assert_eq!(hash, ContentHash::from_bytes(&small));
    assert_eq!(get_file(&store, &disk, &hash), Ok(Some(small)));
}

#[test]
fn missing_and_corrupted_chunks() {
    let store = ChunkedStore::new("root".to_string());
    let mut disk = HashMap::new();
    let data = vec![5u8; CHUNK_SIZE + 10];
    let (hash, _) = store_file(&store, &mut disk, &data);
    let tail = ContentHash::from_bytes(&[5u8; 10]);
    let tail_key = key(&store.chunk_path(&tail));

    let genuine = disk.insert(tail_key.clone(), b"tampered".to_vec()).unwrap();
    assert_eq!(genuine, vec![5u8; 10]);
    assert_eq!(get_file(&store, &disk, &hash), Err(StoreError::Corrupted));

    disk.remove(&tail_key);
    assert_eq!(get_file(&store, &disk, &hash), Err(StoreError::MissingChunk));

    let file = ChunkedFile { total_size: 10, chunks: vec![tail.clone()] };
    assert_eq!(store.assemble(&file, &Vec::new()), Err(StoreError::MissingChunk));
    assert_eq!(
        store.assemble(&file, &vec![ReadOutcome::Found(vec![5u8; 10])]),
        Ok(Some(vec![5u8; 10]))
    );
    let none = ChunkedFile { total_size: 0, chunks: Vec::new() };
    assert_eq!(store.assemble(&none, &Vec::new()), Ok(Some(Vec::new())));
}

#[test]
fn index_with_a_digest_too_short_for_a_path() {
    let store = ChunkedStore::new("root".to_string());
    let file = ChunkedFile { total_size: 1, chunks: vec![ContentHash::from_text("a".to_string())] };
    let bytes = file.encode();
    let hash = ContentHash::from_bytes(&bytes);
    assert_eq!(store.get_file(&hash, ReadOutcome::Found(bytes)), Err(StoreError::MissingChunk));
}

#[test]
fn small_file_that_reads_as_an_index() {
    let store = ChunkedStore::new("root".to_string());
    let mut disk = HashMap::new();
    let data = vec![0u8; 16];
    let (hash, _) = store_file(&store, &mut disk, &data);
    assert_eq!(hash, ContentHash::from_bytes(&data));
    assert_eq!(get_file(&store, &disk, &hash), Ok(Some(Vec::new())));
}
