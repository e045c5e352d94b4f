use whidl::rom::{bools_bin_str, create_rom, u8_to_bools};


#[test]
fn test_u8_to_bools_0() {
    let input: u8 = 0;
    let output = u8_to_bools(&input);
    let expected = Vec::from([false, false, false, false, false, false, false, false]);
    assert_eq!(output, expected);
}

#[test]
fn test_u8_to_bools_1() {
    let input: u8 = 1;
    let output = u8_to_bools(&input);
    let expected = Vec::from([true, false, false, false, false, false, false, false]);
    assert_eq!(output, expected);
}

#[test]
fn test_u8_to_bools_2() {
    let input: u8 = 2;
    let output = u8_to_bools(&input);
    let expected = Vec::from([false, true, false, false, false, false, false, false]);
    assert_eq!(output, expected);
}

#[test]
fn test_u8_to_bools_3() {
    let input: u8 = 3;
    let output = u8_to_bools(&input);
    let expected = Vec::from([true, true, false, false, false, false, false, false]);
    assert_eq!(output, expected);
}

#[test]
fn test_u8_to_bools_128() {
    let input: u8 = 128;
    let output = u8_to_bools(&input);
    let expected = Vec::from([false, false, false, false, false, false, false, true]);
    assert_eq!(output, expected);
}

#[test]
fn test_u8_to_bools_129() {
    let input: u8 = 129;
    let output = u8_to_bools(&input);
    let expected = Vec::from([true, false, false, false, false, false, false, true]);
    assert_eq!(output, expected);
}

#[test]
fn test_u8_to_bools_255() {
    let input: u8 = 255;
    let output = u8_to_bools(&input);
    let expected = Vec::from([true, true, true, true, true, true, true, true]);
    assert_eq!(output, expected);
}

#[test]
fn test_bools_bin_str_0() {
    let input = Vec::from([false, false, false, false, false, false, false, false]);
    let output = bools_bin_str(&input);
    let expected = String::from("00000000");
    assert_eq!(output, expected);
}

#[test]
fn test_bools_bin_str_3() {
    let input = Vec::from([true, true, false, false, false, false, false, false]);
    let output = bools_bin_str(&input);
    let expected = String::from("00000011");
    assert_eq!(output, expected);
}

#[test]
fn test_bools_bin_str_255() {
    let input = Vec::from([true, true, true, true, true, true, true, true]);
    let output = bools_bin_str(&input);
    let expected = String::from("11111111");
    assert_eq!(output, expected);
}

fn mux_text(addr: &str, out: &str) -> String {
    format!(
        "\tMux8Way<16>(\n\t\tin000=rom0, in001=rom1, in010=rom2, in011=rom3,\n\t\tin100=rom4, in101=rom5, in110=rom6, in111=rom7,\n\t\tsel={}[0..2],\n\t\tout={}\n\t);\n",
        addr, out
    )
}

#[test]
fn rom_of_one_word_is_padded_and_muxed() {
    let roms = create_rom(&vec![vec![true, false]]).ok().unwrap();
    assert_eq!(roms.len(), 1);
    let mut expected = String::from("CHIP ROM0 {\n\tIN addr1[3], addr2[3];\n\tOUT out1[16], out2[16];\n\n\tPARTS:\n\n");
    expected.push_str("BufferGen<16>(\n\tin[0]=true,\n\tin[1]=false,\n\tout=rom0\n\t);\n\n");
    expected.push_str("BufferGen<16>(\n\t");
    for k in 0..16 {
        expected.push_str(&format!("in[{}]=false,\n\t", k));
    }
    expected.push_str("out=rom1\n\t);\n\n");
    expected.push_str(&mux_text("addr1", "out1"));
    expected.push_str(&mux_text("addr2", "out2"));
    expected.push_str("}\n");
    assert_eq!(roms[0], expected);
}

#[test]
fn rom_of_eight_words_is_one_chip() {
    let roms = create_rom(&vec![vec![true]; 8]).ok().unwrap();
    assert_eq!(roms.len(), 1);
    assert!(roms[0].contains("out=rom7\n"));
    assert!(!roms[0].contains("out=rom8\n"));
}
