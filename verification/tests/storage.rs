use byteorder::{LittleEndian, WriteBytesExt};
use face_auth_core::error::FaceAuthError;
use face_auth_core::float32::Float32;
use face_auth_core::storage::{EmbeddingStore, EMBEDDING_DIM, EMBEDDING_VERSION_LEGACY};

fn numbers(x: f32) -> Vec<Float32> {
    vec![Float32::from_bits(x.to_bits()); EMBEDDING_DIM as usize]
}

#[test]
fn save_then_load_round_trips_embeddings_and_tag() {
    let store = EmbeddingStore { embeddings: vec![numbers(0.5)], model_tag: None };
    let file = store.save("w600k_r50.onnx");

    let loaded = EmbeddingStore::load(Some(&file)).unwrap();
    assert_eq!(loaded.embeddings, store.embeddings);
    assert_eq!(loaded.model_tag.as_deref(), Some("w600k_r50.onnx"));
}

#[test]
fn model_tag_matches_is_permissive_for_unknown_origin() {
    let unknown = EmbeddingStore { embeddings: vec![], model_tag: None };
    assert!(unknown.model_tag_matches("w600k_mbf.onnx"));
    assert!(unknown.model_tag_matches("w600k_r50.onnx"));
}

#[test]
fn model_tag_matches_rejects_a_real_mismatch() {
    let mbf = EmbeddingStore { embeddings: vec![], model_tag: Some("w600k_mbf.onnx".to_string()) };
    assert!(mbf.model_tag_matches("w600k_mbf.onnx"));
    assert!(!mbf.model_tag_matches("w600k_r50.onnx"));
}

#[test]
fn legacy_v1_file_without_a_tag_still_loads() {
    let mut writer: Vec<u8> = Vec::new();
    writer.write_u32::<LittleEndian>(EMBEDDING_VERSION_LEGACY).unwrap();
    writer.write_u32::<LittleEndian>(1).unwrap();
    writer.write_u32::<LittleEndian>(EMBEDDING_DIM).unwrap();
    for _ in 0..EMBEDDING_DIM {
        writer.write_f32::<LittleEndian>(0.25).unwrap();
    }

    let loaded = EmbeddingStore::load(Some(&writer)).unwrap();
    assert_eq!(loaded.embeddings.len(), 1);
    assert_eq!(loaded.model_tag, None);
    assert!(loaded.model_tag_matches("w600k_r50.onnx"));
    assert_eq!(loaded.embeddings[0], numbers(0.25));
}

#[test]
fn file_layout() {
    let mut store = EmbeddingStore::default();
    assert!(store.embeddings.is_empty());
    assert_eq!(store.model_tag, None);
    assert_eq!(
        store.save("ab"),
        vec![2, 0, 0, 0, 2, 0, 0, 0, b'a', b'b', 0, 0, 0, 0, 0, 2, 0, 0]
    );
    store.add_embedding(numbers(-1.5));
    let file = store.save("");
    assert_eq!(file.len(), 16 + 2048);
    assert_eq!(file[..16].to_vec(), vec![2, 0, 0, 0, 0, 0, 0, 0, 1, 0, 0, 0, 0, 2, 0, 0]);
    assert_eq!(file[16..20].to_vec(), (-1.5f32).to_le_bytes().to_vec());
}

#[test]
fn several_embeddings_keep_their_order() {
    let mut store = EmbeddingStore::default();
    for i in 0..5 {
        store.add_embedding(numbers(i as f32));
    }
    let copy = store.clone();
    let loaded = EmbeddingStore::load(Some(&store.save("tag \u{e9}"))).unwrap();
    assert_eq!(loaded.embeddings, copy.embeddings);
    assert_eq!(loaded.model_tag.as_deref(), Some("tag \u{e9}"));
    assert_eq!(loaded.embeddings[3][511].to_bits(), 3.0f32.to_bits());
}

#[test]
fn missing_file_is_no_embeddings() {
    assert!(matches!(EmbeddingStore::load(None), Err(FaceAuthError::NoEmbeddings)));
}

#[test]
fn truncated_files_end_too_early() {
    let mut store = EmbeddingStore::default();
    store.add_embedding(numbers(1.0));
    let file = store.save("model");
    for n in [0, 3, 4, 7, 8, 12, 13, 16, 20, 21, 100, file.len() - 1] {
        let cut = file[..n].to_vec();
        assert!(
            matches!(EmbeddingStore::load(Some(&cut)), Err(FaceAuthError::UnexpectedEnd)),
            "{}",
            n
        );
    }
    let mut longer = file.clone();
    longer.push(9);
    assert_eq!(EmbeddingStore::load(Some(&longer)).unwrap().embeddings.len(), 1);
}

#[test]
fn wrong_versions_dimensions_and_tags_are_invalid() {
    let file = EmbeddingStore::default().save("m");
    let invalid = |f: &Vec<u8>| {
        matches!(EmbeddingStore::load(Some(f)), Err(FaceAuthError::InvalidEmbeddingFormat))
    };
    let mut version = file.clone();
    version[0] = 3;
    assert!(invalid(&version));
    let mut dim = file.clone();
    dim[14] = 1;
    assert!(invalid(&dim));
    let mut tag = file.clone();
    tag[8] = 0xff;
    assert!(invalid(&tag));
    assert!(!invalid(&file));
}

#[test]
fn store_paths() {
    let p = EmbeddingStore::paths("alice", "/var/lib/face-auth");
    assert_eq!(p.dir, "/var/lib/face-auth/alice");
    assert_eq!(p.file, "/var/lib/face-auth/alice/embeddings.bin");
    assert_eq!(p.temporary, "/var/lib/face-auth/alice/embeddings.bin.tmp");
}
