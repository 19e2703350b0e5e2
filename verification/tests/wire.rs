use beatmap_downloader::wire::{push_u16, push_u32, read_u16, read_u32};

#[test]
fn least_significant_byte_first() {
    let mut buf = vec![0xaa];
    push_u32(&mut buf, 0x0403_0201);
    push_u16(&mut buf, 0x0605);
    assert_eq!(buf, vec![0xaa, 1, 2, 3, 4, 5, 6]);
    assert_eq!(read_u32(&buf, 1), 0x0403_0201);
    assert_eq!(read_u16(&buf, 5), 0x0605);
}

#[test]
fn agrees_with_the_standard_library() {
    for x in [0u32, 1, 255, 256, 65535, 65536, 1234, 0x00ff_ff00, u32::MAX] {
        let mut buf = Vec::new();
        push_u32(&mut buf, x);
        assert_eq!(buf, x.to_le_bytes().to_vec());
        assert_eq!(read_u32(&buf, 0), x);
    }
    for x in [0u16, 1, 255, 256, 2015, u16::MAX] {
        let mut buf = Vec::new();
        push_u16(&mut buf, x);
        assert_eq!(buf, x.to_le_bytes().to_vec());
        assert_eq!(read_u16(&buf, 0), x);
    }
}
