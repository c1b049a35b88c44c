use rolling_crc::{
    INIT_CRC, POLY_CRC, calc_crc, finish_crc, make_crc_table_fast, make_rolling_crc_table,
    update_crc,
};

fn classic_table() -> [u32; 256] {
    let mut crc_table = [0; 256];
    for i in 0..256 {
        let mut r = i;
        for _ in 0..8 {
            r = (r >> 1) ^ (POLY_CRC & !(u32::wrapping_sub(r & 1, 1)));
        }
        crc_table[i as usize] = r;
    }
    crc_table
}

#[test]
fn roll_crc_test_fast_crc_table() {
    // Fast CRC table construction
    let mut fast_crc_table = [0; 256];
    make_crc_table_fast(&mut fast_crc_table, POLY_CRC);

    // Classic CRC table construction algorithm
    let crc_table = classic_table();

    assert_eq!(&fast_crc_table as &[u32], &crc_table as &[u32]);
}

#[test]
fn rollcrc_test_fast_crc_table() {
    let mut fast_crc_table = [0; 256];
    make_crc_table_fast(&mut fast_crc_table, POLY_CRC);
    let crc_table = classic_table();
    assert_eq!(&fast_crc_table as &[u32], &crc_table as &[u32]);
    assert_eq!(fast_crc_table[0], 0);
    assert_eq!(fast_crc_table[1], 0x77073096);
    assert_eq!(fast_crc_table[128], POLY_CRC);
    assert_eq!(fast_crc_table[255], 0x2D02EF8D);
}

#[test]
fn rollcrc_test_rolling_crc_table() {
    // Make the base CRC table.
    let mut crc_table = [0; 256];
    make_crc_table_fast(&mut crc_table, POLY_CRC);

    // Try rolling a variety of window sizes.
    for winsize in 2..16 {
        // Rolling CRC table construction.
        let mut rolling_crc_table = [0; 256];
        make_rolling_crc_table(winsize, &crc_table, &mut rolling_crc_table);

        let test_size = 2 * winsize;
        // Make a buffer of "random" values.
        let buffer: Vec<u8> = (0..winsize + test_size)
            .map(|i| ((11 + i * 31 + i / 17) & 0xff) as u8)
            .collect();

        // Get the initial hash.
        let mut crc2 = calc_crc(&buffer[0..winsize], &crc_table);
        // Open the rolling hash.
        crc2 = finish_crc(crc2);
        // Run rolling and regular hash over remaining windows of buffer.
        for i in winsize..winsize + test_size {
            let window = &buffer[i - winsize + 1..=i];
            let crc1 = calc_crc(window, &crc_table);
            let crcx = crc::crc32::checksum_ieee(window);
            assert_eq!(crc1, crcx);
            crc2 = update_crc(crc2, &crc_table, buffer[i])
                ^ rolling_crc_table[buffer[i - winsize] as usize];
            if crc1 != finish_crc(crc2) {
                panic!("{:08x} != {:08x} ({} {})", crc1, crc2, winsize, i);
            }
        }
    }
}

#[test]
fn finish_is_its_own_inverse() {
    for x in [0u32, 1, 0xdeadbeef, INIT_CRC, 0x0d4a1185] {
        assert_eq!(finish_crc(x), x ^ 0xFFFF_FFFF);
        assert_eq!(finish_crc(finish_crc(x)), x);
    }
}

#[test]
fn update_crc_uses_low_byte_and_shift() {
    let mut crc_table = [0; 256];
    make_crc_table_fast(&mut crc_table, POLY_CRC);
    assert_eq!(update_crc(0, &crc_table, 0), 0);
    assert_eq!(update_crc(0, &crc_table, 1), 0x77073096);
    assert_eq!(update_crc(0x1234_5600, &crc_table, 0x01), 0x77073096 ^ 0x0012_3456);
    assert_eq!(update_crc(INIT_CRC, &crc_table, 0), 0x2D02EF8D ^ 0x00FF_FFFF);
}

#[test]
fn calc_crc_matches_reference() {
    let mut crc_table = [0; 256];
    make_crc_table_fast(&mut crc_table, POLY_CRC);
    let inputs: [&[u8]; 5] = [b"", b"a", b"hello world", b"123456789", &[0u8; 40]];
    for input in inputs.iter() {
        assert_eq!(calc_crc(input, &crc_table), crc::crc32::checksum_ieee(input));
    }
    assert_eq!(calc_crc(b"123456789", &crc_table), 0xcbf43926);
}

#[test]
fn rolling_table_entries_follow_definition() {
    let mut crc_table = [0; 256];
    make_crc_table_fast(&mut crc_table, POLY_CRC);
    for w in [1usize, 3, 8] {
        let mut rolling = [0; 256];
        make_rolling_crc_table(w, &crc_table, &mut rolling);
        for c in 0..256usize {
            let mut x = update_crc(INIT_CRC, &crc_table, c as u8);
            let mut y = INIT_CRC;
            for _ in 0..w {
                x = update_crc(x, &crc_table, 0);
                y = update_crc(y, &crc_table, 0);
            }
            assert_eq!(rolling[c], x ^ y);
        }
        assert_ne!(rolling[1], 0);
    }
}

#[test]
fn doubling_table_from_other_seed() {
    let mut t = [0; 256];
    make_crc_table_fast(&mut t, 1);
    assert_eq!(t[0], 0);
    assert_eq!(t[128], 1);
    assert_eq!(t[64], POLY_CRC);
    for i in [1usize, 2, 4, 8, 16, 32, 64, 128] {
        for j in 1..i {
            assert_eq!(t[i + j], t[i] ^ t[j]);
        }
    }
}
