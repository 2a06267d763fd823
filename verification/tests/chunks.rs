use cryptree::blockstore::{BlockStore, BlockStoreKey, InMemoryBlockStore};
use cryptree::chunk::{
    open_children, open_file_chunk, open_header, open_tail, seal_children, seal_file_chunk,
    seal_header, seal_link_node, seal_tail, ChildLink, ChunkHeader, NodeTail, ParentLink,
};
use cryptree::crypto::{decrypt, encrypt, SymKey};
use cryptree::errors::CryptreeError;
use cryptree::keys::{DirectoryKeys, FileKeys};

#[test]
fn encrypt_decrypt_round_trip() {
    let k = SymKey::new(0x1122_3344_5566_7788);
    let m = vec![10u8, 20, 30, 40, 50];
    let c = encrypt(&k, &m, 16);
    assert_eq!(c.len() % 16, 0);
    assert_eq!(decrypt(&k, &c, 16), Ok(m));
}

#[test]
fn encrypt_empty_plaintext_round_trip() {
    let k = SymKey::new(7);
    let m: Vec<u8> = Vec::new();
    let c = encrypt(&k, &m, 4096);
    assert_eq!(c.len(), 4096);
    assert_eq!(decrypt(&k, &c, 4096), Ok(Vec::new()));
}

#[test]
fn component_lengths_are_padded_multiples() {
    let k = SymKey::new(3);
    // Component 2: multiple of 4096, including a zero-length payload.
    let empty: Vec<u8> = Vec::new();
    assert_eq!(seal_file_chunk(&k, &empty).len() % 4096, 0);
    let big = vec![9u8; 5000];
    assert_eq!(seal_file_chunk(&k, &big).len() % 4096, 0);
    // Component 3: multiple of 16, including empty metadata.
    let tail = NodeTail { parent_link: None, metadata: Vec::new() };
    assert_eq!(seal_tail(&k, &tail).len() % 16, 0);
    let tail2 = NodeTail { parent_link: None, metadata: vec![1u8; 33] };
    assert_eq!(seal_tail(&k, &tail2).len() % 16, 0);
}

#[test]
fn decrypt_with_wrong_key_fails() {
    let k1 = SymKey::new(0xAAAA);
    let k2 = SymKey::new(0xBBBB);
    let m = vec![1u8, 2, 3];
    let c = encrypt(&k1, &m, 16);
    assert_eq!(decrypt(&k2, &c, 16), Err(CryptreeError::DecryptionFailure));
}

#[test]
fn tampered_plaintext_byte_fails_authentication() {
    let k = SymKey::new(0xC0FFEE);
    let m = vec![1u8, 2, 3];
    let mut c = encrypt(&k, &m, 16);
    // Byte 24 masks the first plaintext byte (16 header + 8 length).
    c[24] ^= 0x01;
    assert_eq!(decrypt(&k, &c, 16), Err(CryptreeError::DecryptionFailure));
}

#[test]
fn tampered_padding_byte_is_malformed() {
    let k = SymKey::new(0xC0FFEE);
    let m = vec![1u8, 2, 3];
    let mut c = encrypt(&k, &m, 16);
    // 16 header + 8 length + 3 plaintext = 27; the rest is zero padding.
    let last = c.len() - 1;
    c[last] ^= 0x01;
    assert_eq!(decrypt(&k, &c, 16), Err(CryptreeError::MalformedChunk));
}

#[test]
fn bad_ciphertext_shape_is_malformed() {
    let k = SymKey::new(5);
    assert_eq!(decrypt(&k, &vec![0u8; 10], 16), Err(CryptreeError::MalformedChunk));
    assert_eq!(decrypt(&k, &vec![0u8; 33], 16), Err(CryptreeError::MalformedChunk));
}

#[test]
fn header_seal_open_round_trip() {
    let base = SymKey::new(0xBA5E);
    let h = ChunkHeader {
        second_key: SymKey::new(0xDA7A),
        next_chunk: Some(BlockStoreKey::new(1, 2, 3, 4)),
        signing_link: Some(SymKey::new(0x5160)),
    };
    let c = seal_header(&base, &h);
    assert_eq!(c.len(), 64);
    let got = open_header(&base, &c).unwrap();
    assert_eq!(got.second_key, SymKey::new(0xDA7A));
    assert_eq!(got.next_chunk, Some(BlockStoreKey::new(1, 2, 3, 4)));
    assert_eq!(got.signing_link, Some(SymKey::new(0x5160)));
}

#[test]
fn header_without_options_round_trip() {
    let base = SymKey::new(0xBA5E);
    let h = ChunkHeader { second_key: SymKey::new(9), next_chunk: None, signing_link: None };
    let c = seal_header(&base, &h);
    assert_eq!(c.len(), 64);
    let got = open_header(&base, &c).unwrap();
    assert_eq!(got.second_key, SymKey::new(9));
    assert_eq!(got.next_chunk, None);
    assert_eq!(got.signing_link, None);
}

#[test]
fn header_with_wrong_key_fails() {
    let base = SymKey::new(0xBA5E);
    let other = SymKey::new(0x0B5E);
    let h = ChunkHeader { second_key: SymKey::new(9), next_chunk: None, signing_link: None };
    let c = seal_header(&base, &h);
    assert_eq!(open_header(&other, &c).unwrap_err(), CryptreeError::DecryptionFailure);
}

#[test]
fn children_seal_open_round_trip() {
    let base = SymKey::new(0xD12);
    let children = vec![
        ChildLink {
            name: b"docs".to_vec(),
            key: BlockStoreKey::new(1, 1, 1, 2),
            base_key: SymKey::new(21),
        },
        ChildLink {
            name: b"notes.txt".to_vec(),
            key: BlockStoreKey::new(1, 1, 1, 3),
            base_key: SymKey::new(22),
        },
    ];
    let c = seal_children(&base, &children);
    assert_eq!(c.len() % 4096, 0);
    let got = open_children(&base, &c).unwrap();
    assert_eq!(got.len(), 2);
    assert_eq!(got[0].name, b"docs".to_vec());
    assert_eq!(got[0].key, BlockStoreKey::new(1, 1, 1, 2));
    assert_eq!(got[0].base_key, SymKey::new(21));
    assert_eq!(got[1].name, b"notes.txt".to_vec());
    assert_eq!(got[1].key, BlockStoreKey::new(1, 1, 1, 3));
    assert_eq!(got[1].base_key, SymKey::new(22));
}

#[test]
fn empty_directory_round_trip() {
    let base = SymKey::new(0xD12);
    let children: Vec<ChildLink> = Vec::new();
    let c = seal_children(&base, &children);
    let got = open_children(&base, &c).unwrap();
    assert_eq!(got.len(), 0);
}

#[test]
fn link_node_payload_has_exactly_one_child() {
    let base = SymKey::new(0x11);
    let child = ChildLink {
        name: b"shared.doc".to_vec(),
        key: BlockStoreKey::new(1, 4, 2, 9),
        base_key: SymKey::new(77),
    };
    let c = seal_link_node(&base, child);
    let got = open_children(&base, &c).unwrap();
    assert_eq!(got.len(), 1);
    assert_eq!(got[0].name, b"shared.doc".to_vec());
    assert_eq!(got[0].key, BlockStoreKey::new(1, 4, 2, 9));
    assert_eq!(got[0].base_key, SymKey::new(77));
}

#[test]
fn tail_seal_open_round_trip() {
    let parent = SymKey::new(0x9A);
    let tail = NodeTail {
        parent_link: Some(ParentLink {
            location: BlockStoreKey::new(1, 2, 3, 4),
            parent_parent_key: SymKey::new(0x55),
        }),
        metadata: vec![0xDEu8, 0xAD],
    };
    let c = seal_tail(&parent, &tail);
    assert_eq!(c.len() % 16, 0);
    let got = open_tail(&parent, &c).unwrap();
    let p = got.parent_link.unwrap();
    assert_eq!(p.location, BlockStoreKey::new(1, 2, 3, 4));
    assert_eq!(p.parent_parent_key, SymKey::new(0x55));
    assert_eq!(got.metadata, vec![0xDEu8, 0xAD]);
}

#[test]
fn root_tail_has_no_parent_link() {
    let parent = SymKey::new(0x9A);
    let tail = NodeTail { parent_link: None, metadata: vec![7u8] };
    let c = seal_tail(&parent, &tail);
    let got = open_tail(&parent, &c).unwrap();
    assert!(got.parent_link.is_none());
    assert_eq!(got.metadata, vec![7u8]);
}

#[test]
fn scenario_file_reader_cannot_open_root_children() {
    // User A's root directory (version 1) links a file child (version 2
    // in the same write space). A reader holding only the file's base
    // key can reach the file's data key and content, but not the root's
    // child-link set.
    let root_keys = DirectoryKeys::new(SymKey::new(0xB001), SymKey::new(0xB002), SymKey::new(3));
    let file_keys = FileKeys::new(SymKey::new(0xF11E), SymKey::new(0xDA7A), SymKey::new(4));
    let root_base = root_keys.base();
    let file_base = file_keys.base();
    let file_data = file_keys.data();
    assert_ne!(root_keys.base(), root_keys.parent());
    assert_ne!(file_keys.base(), file_keys.data());
    assert_eq!(root_keys.write_key(), SymKey::new(3));
    assert_eq!(file_keys.write_key(), SymKey::new(4));
    let user_a = 1u32;
    let space = 1u16;
    let root_key = BlockStoreKey::new(0, user_a, space, 1);
    let file_key = BlockStoreKey::new(0, user_a, space, 2);

    let mut store = InMemoryBlockStore::new();

    // The file: header sealed with its base key, content with its data key.
    let file_header = ChunkHeader { second_key: file_data, next_chunk: None, signing_link: None };
    store.insert(file_key, seal_header(&file_base, &file_header));
    let content_key = BlockStoreKey::new(1, user_a, space, 2);
    store.insert(content_key, seal_file_chunk(&file_data, &vec![42u8, 43, 44]));

    // The root: its child-link set sealed with the root base key.
    let children = vec![ChildLink { name: b"file".to_vec(), key: file_key, base_key: file_base }];
    store.insert(root_key, seal_children(&root_base, &children));

    // The reader can open the file.
    let header_block = store.get(&file_key).unwrap().clone();
    let opened = open_header(&file_base, &header_block).unwrap();
    assert_eq!(opened.second_key, file_data);
    let content_block = store.get(&content_key).unwrap().clone();
    assert_eq!(open_file_chunk(&opened.second_key, &content_block), Ok(vec![42u8, 43, 44]));

    // But the root's child links do not decrypt under the file's base key.
    let root_block = store.get(&root_key).unwrap().clone();
    assert_eq!(open_children(&file_base, &root_block).unwrap_err(), CryptreeError::DecryptionFailure);
    // The rightful holder of the root base key still can.
    assert_eq!(open_children(&root_base, &root_block).unwrap().len(), 1);
}
