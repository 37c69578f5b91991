use sudoku_engine::{get_adjacent_cells, get_column, get_head_of_block, get_line, get_peer_group};

#[test]
fn test_get_head_of_block() {
    assert!(get_head_of_block(1) == 0);
    assert!(get_head_of_block(11) == 0);
    assert!(get_head_of_block(70) == 60);
    assert!(get_head_of_block(78) == 60);
    assert!(get_head_of_block(54) == 54);
    assert!(get_head_of_block(56) == 54);
    assert!(get_head_of_block(49) == 30);
    assert!(get_head_of_block(47) == 27);
    assert!(get_head_of_block(28) == 27);
    assert!(get_head_of_block(35) == 33);
    assert!(get_head_of_block(26) == 6);
    assert!(get_head_of_block(32) == 30);
    assert!(get_head_of_block(17) == 6);
}

#[test]
fn test_get_line_and_column() {
    assert_eq!(get_line(0), 0);
    assert_eq!(get_line(8), 0);
    assert_eq!(get_line(9), 9);
    assert_eq!(get_line(80), 72);
    assert_eq!(get_column(0), 0);
    assert_eq!(get_column(8), 8);
    assert_eq!(get_column(9), 0);
    assert_eq!(get_column(80), 8);
}

#[test]
fn test_peer_symmetry() {
    // for every cell i and every peer j of i, i is a peer of j, and no
    // cell is its own peer
    for i in 0..81usize {
        let peers = get_adjacent_cells(i);
        for &j in peers.iter() {
            assert_ne!(j, i);
            let back = get_adjacent_cells(j);
            assert!(back.iter().any(|&k| k == i));
        }
    }
}

#[test]
fn test_peer_counts() {
    // 20 distinct peers per cell, and three groups of 8 distinct members
    // each, every group member also among the 20
    for i in 0..81usize {
        let peers = get_adjacent_cells(i);
        assert_eq!(peers.len(), 20);
        for a in 0..20 {
            for b in (a + 1)..20 {
                assert_ne!(peers[a], peers[b]);
            }
        }
        for which in 0..3usize {
            let group = get_peer_group(i, which);
            assert_eq!(group.len(), 8);
            for a in 0..8 {
                for b in (a + 1)..8 {
                    assert_ne!(group[a], group[b]);
                }
                assert!(peers.iter().any(|&k| k == group[a]));
            }
        }
    }
}

#[test]
fn test_peer_table_contents() {
    // cell 0: row 0, column 0, box at the top-left corner
    let peers = get_adjacent_cells(0);
    let mut sorted = peers.to_vec();
    sorted.sort();
    assert_eq!(
        sorted,
        vec![1, 2, 3, 4, 5, 6, 7, 8, 9, 10, 11, 18, 19, 20, 27, 36, 45, 54, 63, 72]
    );
    let row = get_peer_group(0, 0);
    assert_eq!(row.to_vec(), vec![1, 2, 3, 4, 5, 6, 7, 8]);
    let col = get_peer_group(0, 1);
    assert_eq!(col.to_vec(), vec![9, 18, 27, 36, 45, 54, 63, 72]);
    let boxg = get_peer_group(0, 2);
    assert_eq!(boxg.to_vec(), vec![1, 2, 9, 10, 11, 18, 19, 20]);
}
