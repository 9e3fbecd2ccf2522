use std::cell::RefCell;
use std::rc::Rc;

use samase_plugin::save::{
    add_hook, call_init_hooks, call_load_hooks, call_save_hooks, iter_extensions_from_data,
    Error, SaveExtension, SaveHooks,
};

fn le_u32(data: &[u8], pos: usize) -> u32 {
    u32::from_le_bytes([data[pos], data[pos + 1], data[pos + 2], data[pos + 3]])
}

fn le_u64(data: &[u8], pos: usize) -> u64 {
    let mut b = [0u8; 8];
    b.copy_from_slice(&data[pos..pos + 8]);
    u64::from_le_bytes(b)
}

/// An extension that stores a fixed payload and counts its callbacks
/// through a shared state cell, so tests can check call order and counts.
struct CountingExt {
    payload: Vec<u8>,
    state: Rc<RefCell<usize>>,
    save_range: (usize, usize),
    init_range: (usize, usize),
    load_range: (usize, usize),
}

impl SaveExtension for CountingExt {
    fn save(&mut self) -> Vec<u8> {
        let mut state = self.state.borrow_mut();
        assert!(*state >= self.save_range.0 && *state < self.save_range.1);
        *state += 1;
        self.payload.clone()
    }

    fn load(&mut self, data: &[u8]) -> u32 {
        let mut state = self.state.borrow_mut();
        assert!(*state >= self.load_range.0 && *state < self.load_range.1);
        *state += 1;
        assert_eq!(data, &self.payload[..]);
        1
    }

    fn init(&mut self) {
        let mut state = self.state.borrow_mut();
        assert!(*state >= self.init_range.0 && *state < self.init_range.1);
        *state += 1;
    }
}

struct NopExt;

impl SaveExtension for NopExt {
    fn save(&mut self) -> Vec<u8> {
        Vec::new()
    }

    fn load(&mut self, _data: &[u8]) -> u32 {
        1
    }

    fn init(&mut self) {}
}

enum TagExt {
    Counting(CountingExt),
    Nop(NopExt),
}

impl SaveExtension for TagExt {
    fn save(&mut self) -> Vec<u8> {
        match self {
            TagExt::Counting(e) => e.save(),
            TagExt::Nop(e) => e.save(),
        }
    }

    fn load(&mut self, data: &[u8]) -> u32 {
        match self {
            TagExt::Counting(e) => e.load(data),
            TagExt::Nop(e) => e.load(data),
        }
    }

    fn init(&mut self) {
        match self {
            TagExt::Counting(e) => e.init(),
            TagExt::Nop(e) => e.init(),
        }
    }
}

#[test]
fn repeat_tag() {
    let state = Rc::new(RefCell::new(0usize));
    let payload = vec![1u8, 2, 3, 4, 5, 7];
    let counting = |save: (usize, usize), init: (usize, usize), load: (usize, usize)| {
        TagExt::Counting(CountingExt {
            payload: payload.clone(),
            state: state.clone(),
            save_range: save,
            init_range: init,
            load_range: load,
        })
    };
    let mut hooks: SaveHooks<TagExt> = SaveHooks::new();
    add_hook(&mut hooks, "tag".to_string(), counting((0, 2), (2, 4), (4, 8)));
    add_hook(&mut hooks, "tag".to_string(), counting((0, 2), (2, 4), (4, 8)));
    add_hook(&mut hooks, "unrelated".to_string(), TagExt::Nop(NopExt));
    let out = call_save_hooks(&mut hooks, 1235).expect("save should build");
    call_init_hooks(&mut hooks);
    // The block starts with the magic word and its size field covers
    // everything after those two words.
    assert_eq!(le_u32(&out.data, 0), 0x53736d53);
    assert_eq!(le_u32(&out.data, 4) as usize, out.data.len() - 8);
    assert_eq!(le_u32(&out.data, out.data.len() - 4), 1235);
    assert!(out.oversized.is_empty());
    // Two chunks under the repeated tag; the nop extension stored nothing.
    assert_eq!(le_u32(&out.data, 8), 0);
    assert_eq!(le_u64(&out.data, 12), 2);
    call_load_hooks(&mut hooks, out.data[8..].to_vec()).expect("load should succeed");
    // Save hook ran twice, init twice, and each of the two chunks reached
    // both extensions under the tag: four load calls.
    assert_eq!(*state.borrow(), 8);
}

#[test]
fn save_data_is_actually_compressed() {
    struct Zeros;
    impl SaveExtension for Zeros {
        fn save(&mut self) -> Vec<u8> {
            vec![0u8; 4096]
        }
        fn load(&mut self, data: &[u8]) -> u32 {
            assert_eq!(data, &[0u8; 4096][..]);
            1
        }
        fn init(&mut self) {}
    }
    let mut hooks: SaveHooks<Zeros> = SaveHooks::new();
    add_hook(&mut hooks, "zeros".to_string(), Zeros);
    let out = call_save_hooks(&mut hooks, 0).expect("save should build");
    // 4096 zero bytes must deflate to far fewer bytes, so the stored block
    // is much smaller than the raw payload.
    assert!(out.data.len() < 1000);
    let ext = iter_extensions_from_data(out.data[8..].to_vec()).expect("should parse");
    let chunks = ext.read_chunks().expect("should decompress");
    assert_eq!(chunks.len(), 1);
    assert_eq!(chunks[0].tag, "zeros");
    assert_eq!(chunks[0].data, vec![0u8; 4096]);
}

#[test]
fn parse_rejects_malformed_blocks() {
    // Too short for the version and count header.
    assert!(matches!(
        iter_extensions_from_data(vec![0u8; 11]),
        Err(Error::BadSave)
    ));
    // Nonzero version word.
    let mut data = vec![0u8; 12];
    data[0] = 1;
    assert!(matches!(iter_extensions_from_data(data), Err(Error::BadSave)));
    // A chunk count with no table behind it.
    let mut data = vec![0u8; 12];
    data[4] = 1;
    assert!(matches!(iter_extensions_from_data(data), Err(Error::BadSave)));
    // A tag length that runs past the buffer.
    let mut data = vec![0u8; 40];
    data[4] = 1;
    data[12] = 0xff;
    assert!(matches!(iter_extensions_from_data(data), Err(Error::BadSave)));
}

#[test]
fn parse_rejects_oversized_chunk_length() {
    // One chunk with an empty tag and a length over the cap.
    let mut data = vec![0u8; 12];
    data[4] = 1;
    let mut name_len = vec![0u8; 8];
    let mut length = (0x0400_0001u64).to_le_bytes().to_vec();
    let mut compressed = vec![0u8; 8];
    data.append(&mut name_len);
    data.append(&mut length);
    data.append(&mut compressed);
    assert!(matches!(iter_extensions_from_data(data), Err(Error::BadSave)));
}

#[test]
fn parse_empty_block() {
    // Version 0, zero chunks, no data.
    let data = vec![0u8; 12];
    let ext = iter_extensions_from_data(data).expect("should parse");
    assert_eq!(ext.chunks.len(), 0);
    assert_eq!(ext.buffer_pos, 12);
    assert!(ext.read_chunks().expect("no chunks to read").is_empty());
}

#[test]
fn empty_extensions_store_no_chunks() {
    let mut hooks: SaveHooks<NopExt> = SaveHooks::new();
    add_hook(&mut hooks, "quiet".to_string(), NopExt);
    let out = call_save_hooks(&mut hooks, 16).expect("save should build");
    let ext = iter_extensions_from_data(out.data[8..].to_vec()).expect("should parse");
    assert_eq!(ext.chunks.len(), 0);
}

#[test]
fn load_failure_names_the_tag() {
    struct Reject;
    impl SaveExtension for Reject {
        fn save(&mut self) -> Vec<u8> {
            vec![9]
        }
        fn load(&mut self, _data: &[u8]) -> u32 {
            0
        }
        fn init(&mut self) {}
    }
    let mut hooks: SaveHooks<Reject> = SaveHooks::new();
    add_hook(&mut hooks, "picky".to_string(), Reject);
    let out = call_save_hooks(&mut hooks, 0).expect("save should build");
    match call_load_hooks(&mut hooks, out.data[8..].to_vec()) {
        Err(Error::HookFail(tag)) => assert_eq!(tag, "picky"),
        _ => panic!("expected the load hook's failure"),
    }
}

#[test]
fn oversized_extension_is_reported_not_stored() {
    struct Huge;
    impl SaveExtension for Huge {
        fn save(&mut self) -> Vec<u8> {
            vec![1u8; 0x0400_0001]
        }
        fn load(&mut self, _data: &[u8]) -> u32 {
            1
        }
        fn init(&mut self) {}
    }
    let mut hooks: SaveHooks<Huge> = SaveHooks::new();
    add_hook(&mut hooks, "huge".to_string(), Huge);
    let out = call_save_hooks(&mut hooks, 0).expect("save should build");
    assert_eq!(out.oversized, vec!["huge".to_string()]);
    let ext = iter_extensions_from_data(out.data[8..].to_vec()).expect("should parse");
    assert_eq!(ext.chunks.len(), 0);
}

#[test]
fn non_ascii_tag_survives_round_trip() {
    struct Marked;
    impl SaveExtension for Marked {
        fn save(&mut self) -> Vec<u8> {
            vec![7, 7, 7]
        }
        fn load(&mut self, data: &[u8]) -> u32 {
            assert_eq!(data, &[7, 7, 7]);
            1
        }
        fn init(&mut self) {}
    }
    let tag = "t\u{e4}g\u{2603}";
    let mut hooks: SaveHooks<Marked> = SaveHooks::new();
    add_hook(&mut hooks, tag.to_string(), Marked);
    let out = call_save_hooks(&mut hooks, 0).expect("save should build");
    let ext = iter_extensions_from_data(out.data[8..].to_vec()).expect("should parse");
    assert_eq!(ext.chunks.len(), 1);
    // The stored tag bytes decode back to the same characters, not to a
    // byte-for-byte reinterpretation.
    assert_eq!(ext.chunks[0].tag, tag);
    call_load_hooks(&mut hooks, out.data[8..].to_vec()).expect("load should succeed");
}
