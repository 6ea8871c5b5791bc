use torrent_rs::block_manager::BlockManager;
use torrent_rs::piece::{BlockInfo, BLOCK_SIZE};

fn create_test_block(size: usize) -> Vec<u8> {
    vec![0u8; size]
}

#[test]
fn test_new() {
    let manager = BlockManager::new();
    assert_eq!(manager.piece_count(), 0);
    assert_eq!(manager.pending_count(), 0);
}

#[test]
fn test_init_piece_single_block() {
    let mut manager = BlockManager::new();
    let piece_index = 0;
    let piece_size = 8192;

    manager.init_piece(piece_index, piece_size);

    assert!(manager.piece_blocks(piece_index).is_some());
    let blocks = manager.piece_blocks(piece_index).unwrap();
    assert_eq!(blocks.len(), 1);
    assert!(blocks[0].is_none());
}

#[test]
fn test_init_piece_multiple_blocks() {
    let mut manager = BlockManager::new();
    let piece_index = 1;
    let piece_size = BLOCK_SIZE * 2 + 1000;

    manager.init_piece(piece_index, piece_size);

    assert!(manager.piece_blocks(piece_index).is_some());
    let blocks = manager.piece_blocks(piece_index).unwrap();
    assert_eq!(blocks.len(), 3);
    for block in blocks {
        assert!(block.is_none());
    }
}

#[test]
fn test_init_piece_exact_block_size() {
    let mut manager = BlockManager::new();
    let piece_index = 2;
    let piece_size = BLOCK_SIZE;

    manager.init_piece(piece_index, piece_size);

    let blocks = manager.piece_blocks(piece_index).unwrap();
    assert_eq!(blocks.len(), 1);
}

#[test]
fn test_init_piece_overwrites_existing() {
    let mut manager = BlockManager::new();
    let piece_index = 0;

    manager.init_piece(piece_index, BLOCK_SIZE);
    assert_eq!(manager.piece_blocks(piece_index).unwrap().len(), 1);

    manager.init_piece(piece_index, BLOCK_SIZE * 3);
    assert_eq!(manager.piece_blocks(piece_index).unwrap().len(), 3);
}

#[test]
fn test_next_block_piece_not_initialized() {
    let mut manager = BlockManager::new();
    let piece_index = 99;
    let piece_size = BLOCK_SIZE;

    let result = manager.next_block(piece_index, piece_size);
    assert!(result.is_none());
}

#[test]
fn test_next_block_first_block() {
    let mut manager = BlockManager::new();
    let piece_index = 0;
    let piece_size = BLOCK_SIZE;

    manager.init_piece(piece_index, piece_size);

    let block_info = manager.next_block(piece_index, piece_size).unwrap();
    assert_eq!(block_info.piece_index, piece_index);
    assert_eq!(block_info.offset, 0);
    assert_eq!(block_info.length, BLOCK_SIZE);

    assert!(manager.is_pending(block_info));
}

#[test]
fn test_next_block_multiple_blocks() {
    let mut manager = BlockManager::new();
    let piece_index = 0;
    let piece_size = BLOCK_SIZE * 2 + 1000;

    manager.init_piece(piece_index, piece_size);

    let block1 = manager.next_block(piece_index, piece_size).unwrap();
    assert_eq!(block1.offset, 0);
    assert_eq!(block1.length, BLOCK_SIZE);

    let block2 = manager.next_block(piece_index, piece_size).unwrap();
    assert_eq!(block2.offset, BLOCK_SIZE);
    assert_eq!(block2.length, BLOCK_SIZE);

    let block3 = manager.next_block(piece_index, piece_size).unwrap();
    assert_eq!(block3.offset, BLOCK_SIZE * 2);
    assert_eq!(block3.length, 1000);
}

#[test]
fn test_next_block_no_more_blocks() {
    let mut manager = BlockManager::new();
    let piece_index = 0;
    let piece_size = BLOCK_SIZE;

    manager.init_piece(piece_index, piece_size);

    let _block = manager.next_block(piece_index, piece_size).unwrap();

    let result = manager.next_block(piece_index, piece_size);
    assert!(result.is_none());
}

#[test]
fn test_next_block_skips_pending() {
    let mut manager = BlockManager::new();
    let piece_index = 0;
    let piece_size = BLOCK_SIZE * 2;

    manager.init_piece(piece_index, piece_size);

    let block1 = manager.next_block(piece_index, piece_size).unwrap();

    let block2 = manager.next_block(piece_index, piece_size).unwrap();
    assert_eq!(block2.offset, BLOCK_SIZE);

    assert!(manager.is_pending(block1));
}

#[test]
fn test_store_block_valid() {
    let mut manager = BlockManager::new();
    let piece_index = 0;
    let piece_size = BLOCK_SIZE;

    manager.init_piece(piece_index, piece_size);
    let block_info = manager.next_block(piece_index, piece_size).unwrap();

    let test_data = create_test_block(BLOCK_SIZE as usize);
    manager.store_block(block_info.clone(), test_data.clone());

    assert!(!manager.is_pending(block_info));

    let blocks = manager.piece_blocks(piece_index).unwrap();
    assert!(blocks[0].is_some());
    assert_eq!(blocks[0].as_ref().unwrap(), &test_data);
}

#[test]
fn test_store_block_multiple_blocks() {
    let mut manager = BlockManager::new();
    let piece_index = 0;
    let piece_size = BLOCK_SIZE * 3;

    manager.init_piece(piece_index, piece_size);

    let block1 = manager.next_block(piece_index, piece_size).unwrap();
    assert_eq!(block1.offset, 0);
    let data1 = create_test_block(BLOCK_SIZE as usize);
    manager.store_block(block1, data1.clone());

    let block2 = manager.next_block(piece_index, piece_size).unwrap();
    assert_eq!(block2.offset, BLOCK_SIZE);

    let block3 = manager.next_block(piece_index, piece_size).unwrap();
    assert_eq!(block3.offset, BLOCK_SIZE * 2);
    let data3 = create_test_block(BLOCK_SIZE as usize);
    manager.store_block(block3, data3.clone());

    let blocks = manager.piece_blocks(piece_index).unwrap();
    assert!(blocks[0].is_some());
    assert!(blocks[1].is_none());
    assert!(blocks[2].is_some());
    assert_eq!(blocks[0].as_ref().unwrap(), &data1);
    assert_eq!(blocks[2].as_ref().unwrap(), &data3);

    assert!(manager.is_pending(block2));
}

#[test]
fn test_store_block_invalid_piece() {
    let mut manager = BlockManager::new();
    let piece_index = 0;
    let invalid_piece_index = 99;

    manager.init_piece(piece_index, BLOCK_SIZE);

    let block_info = BlockInfo {
        piece_index: invalid_piece_index,
        offset: 0,
        length: BLOCK_SIZE,
    };

    let test_data = create_test_block(BLOCK_SIZE as usize);
    manager.store_block(block_info, test_data);

    let blocks = manager.piece_blocks(piece_index).unwrap();
    assert!(blocks[0].is_none());
}

#[test]
fn test_store_block_invalid_offset() {
    let mut manager = BlockManager::new();
    let piece_index = 0;
    let piece_size = BLOCK_SIZE;

    manager.init_piece(piece_index, piece_size);

    let block_info = BlockInfo {
        piece_index,
        offset: BLOCK_SIZE * 10,
        length: BLOCK_SIZE,
    };

    let test_data = create_test_block(BLOCK_SIZE as usize);
    manager.store_block(block_info, test_data);

    let blocks = manager.piece_blocks(piece_index).unwrap();
    assert!(blocks[0].is_none());
}

#[test]
fn test_store_block_removes_from_pending() {
    let mut manager = BlockManager::new();
    let piece_index = 0;
    let piece_size = BLOCK_SIZE;

    manager.init_piece(piece_index, piece_size);
    let block_info = manager.next_block(piece_index, piece_size).unwrap();

    assert!(manager.is_pending(block_info));

    let test_data = create_test_block(BLOCK_SIZE as usize);
    manager.store_block(block_info.clone(), test_data);

    assert!(!manager.is_pending(block_info));
}

#[test]
fn test_pending_blocks_timing() {
    let mut manager = BlockManager::new();
    let piece_index = 0;
    let piece_size = BLOCK_SIZE;

    manager.init_piece(piece_index, piece_size);

    let before = std::time::Instant::now();
    let block_info = manager.next_block(piece_index, piece_size).unwrap();
    let after = std::time::Instant::now();

    let pending_time = manager.pending_since(block_info).unwrap();
    assert!(pending_time >= before && pending_time <= after);
}

#[test]
fn test_workflow_complete_piece() {
    let mut manager = BlockManager::new();
    let piece_index = 0;
    let piece_size = BLOCK_SIZE * 2 + 1000;

    manager.init_piece(piece_index, piece_size);

    let mut block_infos = Vec::new();
    let mut test_data = Vec::new();

    while let Some(block_info) = manager.next_block(piece_index, piece_size) {
        let data = create_test_block(block_info.length as usize);
        test_data.push(data.clone());
        block_infos.push(block_info.clone());
        manager.store_block(block_info, data);
    }

    assert_eq!(block_infos.len(), 3);
    assert_eq!(test_data.len(), 3);

    let blocks = manager.piece_blocks(piece_index).unwrap();
    for (i, block) in blocks.iter().enumerate() {
        assert!(block.is_some());
        assert_eq!(block.as_ref().unwrap(), &test_data[i]);
    }

    assert_eq!(manager.pending_count(), 0);
}

#[test]
fn test_piece_size_edge_cases() {
    let mut manager = BlockManager::new();

    manager.init_piece(0, 0);
    let blocks = manager.piece_blocks(0).unwrap();
    assert_eq!(blocks.len(), 0);

    manager.init_piece(1, 1);
    let blocks = manager.piece_blocks(1).unwrap();
    assert_eq!(blocks.len(), 1);

    let block_info = manager.next_block(1, 1).unwrap();
    assert_eq!(block_info.length, 1);
}

#[test]
fn test_bug_in_next_block_logic() {
    let mut manager = BlockManager::new();
    let piece_index = 0;
    let piece_size = BLOCK_SIZE;

    manager.init_piece(piece_index, piece_size);

    let result = manager.next_block(piece_index, piece_size);

    assert!(
        result.is_some(),
        "next_block should return the first empty block"
    );
}

#[test]
fn test_next_block_after_partial_completion() {
    let mut manager = BlockManager::new();
    let piece_index = 0;
    let piece_size = BLOCK_SIZE * 3;

    manager.init_piece(piece_index, piece_size);

    let block1 = manager.next_block(piece_index, piece_size).unwrap();
    let data1 = create_test_block(BLOCK_SIZE as usize);
    manager.store_block(block1, data1);

    let block2 = manager.next_block(piece_index, piece_size).unwrap();
    assert_eq!(block2.offset, BLOCK_SIZE);

    let data2 = create_test_block(BLOCK_SIZE as usize);
    manager.store_block(block2, data2);

    let block3 = manager.next_block(piece_index, piece_size).unwrap();
    assert_eq!(block3.offset, BLOCK_SIZE * 2);

    let data3 = create_test_block(BLOCK_SIZE as usize);
    manager.store_block(block3, data3);

    let no_more_blocks = manager.next_block(piece_index, piece_size);
    assert!(no_more_blocks.is_none());
}

#[test]
fn complete_piece_assembles_in_offset_order() {
    let mut manager = BlockManager::new();
    let size = BLOCK_SIZE + 3;
    manager.init_piece(4, size);
    let first = manager.next_block(4, size).unwrap();
    let second = manager.next_block(4, size).unwrap();
    assert_eq!(second.length, 3);
    manager.store_block(second, vec![7, 8, 9]);
    assert!(!manager.is_piece_complete(4));
    assert!(manager.assemble_piece(4).is_none());
    manager.store_block(first, vec![1u8; BLOCK_SIZE as usize]);
    assert!(manager.is_piece_complete(4));
    let data = manager.assemble_piece(4).unwrap();
    assert_eq!(data.len(), BLOCK_SIZE as usize + 3);
    assert_eq!(&data[BLOCK_SIZE as usize..], &[7, 8, 9]);
    manager.cleanup_piece(4);
    assert!(manager.piece_blocks(4).is_none());
    assert!(!manager.is_piece_complete(4));
}

#[test]
fn last_piece_block_count_and_final_length() {
    // A last piece of 40000 bytes: three blocks, the last of 40000 % 16384.
    let mut manager = BlockManager::new();
    manager.init_piece(9, 40000);
    assert_eq!(manager.piece_blocks(9).unwrap().len(), 3);
    let mut last = None;
    while let Some(b) = manager.next_block(9, 40000) {
        last = Some(b);
    }
    assert_eq!(last.unwrap().length, 40000 % 16384);
    // A piece that divides evenly ends in a full block.
    manager.init_piece(10, 32768);
    assert_eq!(manager.piece_blocks(10).unwrap().len(), 2);
    let _ = manager.next_block(10, 32768).unwrap();
    assert_eq!(manager.next_block(10, 32768).unwrap().length, 16384);
}
