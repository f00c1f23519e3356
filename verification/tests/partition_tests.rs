use feather_redeemed::addr::Addr;
use feather_redeemed::parse::CidrPrefix;
use feather_redeemed::partition::{cidr_blocks, private_blocks, target_blocks, ScanTarget};

fn a(o1: u8, o2: u8, o3: u8, o4: u8) -> Addr {
    Addr { o1, o2, o3, o4 }
}

#[test]
fn private_space_partition() {
    let blocks = private_blocks();
    // 65536 blocks of 10.0.0.0/8, 4096 of 172.16.0.0/12, 256 of 192.168.0.0/16
    assert_eq!(blocks.len(), 69888);
    assert_eq!(blocks[0], a(10, 0, 0, 0));
    assert_eq!(blocks[1], a(10, 0, 1, 0));
    assert_eq!(blocks[65535], a(10, 255, 255, 0));
    assert_eq!(blocks[65536], a(172, 16, 0, 0));
    assert_eq!(blocks[69631], a(172, 31, 255, 0));
    assert_eq!(blocks[69632], a(192, 168, 0, 0));
    assert_eq!(blocks[69887], a(192, 168, 255, 0));
}

#[test]
fn private_space_partition_is_ascending() {
    let blocks = private_blocks();
    for w in blocks.windows(2) {
        let v0 = (w[0].o1 as u32) << 24 | (w[0].o2 as u32) << 16 | (w[0].o3 as u32) << 8;
        let v1 = (w[1].o1 as u32) << 24 | (w[1].o2 as u32) << 16 | (w[1].o3 as u32) << 8;
        assert!(v0 < v1);
    }
}

#[test]
fn cidr_partitions() {
    assert_eq!(cidr_blocks(a(10, 4, 7, 9), CidrPrefix::Len24), vec![a(10, 4, 7, 0)]);
    let b16 = cidr_blocks(a(172, 20, 3, 1), CidrPrefix::Len16);
    assert_eq!(b16.len(), 256);
    assert_eq!(b16[0], a(172, 20, 0, 0));
    assert_eq!(b16[255], a(172, 20, 255, 0));
    let b8 = cidr_blocks(a(10, 9, 9, 9), CidrPrefix::Len8);
    assert_eq!(b8.len(), 65536);
    assert_eq!(b8[0], a(10, 0, 0, 0));
    assert_eq!(b8[65535], a(10, 255, 255, 0));
}

#[test]
fn target_blocks_cover_target() {
    assert_eq!(target_blocks(&ScanTarget::AllPrivate).len(), 69888);
    assert_eq!(
        target_blocks(&ScanTarget::Cidr(a(192, 168, 1, 5), CidrPrefix::Len24)),
        vec![a(192, 168, 1, 0)]
    );
}
