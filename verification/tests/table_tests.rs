use mini_lsm::table::{encode_block_meta, BlockMeta, SsTableBuilder};

#[test]
fn tiny_block_size_gives_one_block_per_entry() {
    // block_size = 16: a second one-byte entry would need 9 + 6 + 2 = 17
    let mut builder = SsTableBuilder::new(16);
    builder.add(b"a", b"1");
    builder.add(b"b", b"2");
    builder.add(b"c", b"3");
    let table = builder.build();

    assert_eq!(table.block_metas.len(), 3);
    assert_eq!(table.block_metas[0].first_key, b"a".to_vec());
    assert_eq!(table.block_metas[1].first_key, b"b".to_vec());
    assert_eq!(table.block_metas[2].first_key, b"c".to_vec());
    // each block encodes to 6 data bytes + 2 offset bytes + 2 count bytes
    assert_eq!(table.block_metas[0].offset, 0);
    assert_eq!(table.block_metas[1].offset, 10);
    assert_eq!(table.block_metas[2].offset, 20);
    assert_eq!(table.block_meta_offset, 30);
    // the trailing four bytes hold the metadata offset, little-endian
    let n = table.data.len();
    assert_eq!(&table.data[n - 4..], &[30, 0, 0, 0]);
}

#[test]
fn one_block_table_layout() {
    let mut builder = SsTableBuilder::new(64);
    builder.add(b"apple", b"1");
    builder.add(b"banana", b"22");
    builder.add(b"cherry", b"333");
    let table = builder.build();

    assert_eq!(table.block_metas.len(), 1);
    assert_eq!(table.block_metas[0].offset, 0);
    assert_eq!(table.block_metas[0].first_key, b"apple".to_vec());
    // block data: 10 + 12 + 13 bytes, plus 3 offsets and the count
    assert_eq!(table.block_meta_offset, 43);
    let n = table.data.len();
    assert_eq!(&table.data[n - 4..], &[43, 0, 0, 0]);
    // one metadata record: offset u32, key length u16, key bytes
    assert_eq!(&table.data[43..n - 4], &[0, 0, 0, 0, 5, 0, 97, 112, 112, 108, 101]);
}

#[test]
fn estimated_size_counts_only_flushed_blocks() {
    let mut builder = SsTableBuilder::new(16);
    assert_eq!(builder.estimated_size(), 0);
    builder.add(b"a", b"1");
    // still in the block builder, nothing flushed
    assert_eq!(builder.estimated_size(), 0);
    builder.add(b"b", b"2");
    // first block flushed, estimated size 9
    assert_eq!(builder.estimated_size(), 9);
    builder.add(b"c", b"3");
    assert_eq!(builder.estimated_size(), 18);
}

#[test]
fn empty_builder_builds_footer_only_table() {
    let builder = SsTableBuilder::new(64);
    let table = builder.build();
    assert_eq!(table.block_metas.len(), 0);
    assert_eq!(table.block_meta_offset, 0);
    assert_eq!(table.data, vec![0, 0, 0, 0]);
}

#[test]
fn meta_records_encode_back_to_back() {
    let metas = vec![
        BlockMeta { offset: 7, first_key: b"ab".to_vec() },
        BlockMeta { offset: 300, first_key: b"c".to_vec() },
    ];
    let mut buf: Vec<u8> = Vec::new();
    encode_block_meta(&metas, &mut buf);
    assert_eq!(buf, vec![7, 0, 0, 0, 2, 0, 97, 98, 44, 1, 0, 0, 1, 0, 99]);
}
