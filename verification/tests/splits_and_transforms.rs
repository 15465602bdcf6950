use vp8_entropy::{bar, foo};
use vp8_entropy::transform::{idct4x4, iwht4x4};
use vp8_entropy::vp8::tree_nodes_from;
use vp8_entropy::vp8::TreeNode;

#[test]
fn test_foo_exact() {
    // xrange 0x17b has its top byte 189 one bit up: split = 1 + (188 * 128) / 256 = 95,
    // positioned one bit up again: 190.
    assert_eq!(foo(0x17b, 128), 190);
    assert_eq!(bar(0x17b, 128), 190);
    assert_eq!(foo(0xFF00_0000, 0), 0x100_0000);
}

#[test]
fn test_foo_bar() {
    let mut xrange: u64 = 0x000000017b;
    for i in 0..20 {
        for prob in 0..256 {
            let a = foo(xrange, prob as u8);
            let b = bar(xrange, prob as u8);
            assert_eq!(a, b);
        }
        xrange <<= 1;
        xrange |= ((i * 13) % 17) & 0b1;
    }
}

#[test]
fn test_idct4x4_zero() {
    let mut block = [[0i32; 4]; 4];
    idct4x4(&mut block);
    assert_eq!(block, [[0i32; 4]; 4]);
}

#[test]
fn test_iwht4x4_zero() {
    let mut block = [[0i32; 4]; 4];
    iwht4x4(&mut block);
    assert_eq!(block, [[0i32; 4]; 4]);
}

#[test]
fn test_idct4x4_values() {
    let mut block = [[17, -3, 0, 5], [2, 0, 0, 0], [-1, 4, 0, 0], [0, 0, 2, -2]];
    idct4x4(&mut block);
    assert_eq!(block, [[3, 2, 3, 2], [1, 1, 4, 3], [1, 1, 3, 4], [2, 1, 3, 1]]);
}

#[test]
fn test_iwht4x4_values() {
    let mut block = [[17, -3, 0, 5], [2, 0, 0, 0], [-1, 4, 0, 0], [0, 0, 2, -2]];
    iwht4x4(&mut block);
    assert_eq!(block, [[3, 2, 2, 2], [2, 1, 4, 2], [2, 0, 3, 3], [2, 1, 3, 0]]);
}

#[test]
fn test_tree_nodes_from() {
    let nodes = tree_nodes_from(&[2, 4, 0, -1, -2, -3], &[100, 120, 140]);
    assert_eq!(nodes.len(), 3);
    assert_eq!((nodes[0].left, nodes[0].right, nodes[0].index, nodes[0].prob), (1, 2, 0, 100));
    assert_eq!((nodes[1].left, nodes[1].right, nodes[1].index, nodes[1].prob), (128, 129, 1, 120));
    assert_eq!((nodes[2].left, nodes[2].right, nodes[2].index, nodes[2].prob), (130, 131, 2, 140));
}

#[test]
fn test_value_from_branch() {
    assert_eq!(TreeNode::value_from_branch(128), 0);
    assert_eq!(TreeNode::value_from_branch(129), 1);
    assert_eq!(TreeNode::value_from_branch(130), 2);
    assert_eq!(TreeNode::value_from_branch(131), 3);
}
