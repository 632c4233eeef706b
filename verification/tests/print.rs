use floating::{
    float_to_hex_lines, hex_string, print_flopoco, print_float, print_hardfloat, split_words,
    to_flopoco, to_hardfloat, Binary16, Binary32, Binary64,
};
use num_bigint::BigUint;

fn v(x: u128) -> BigUint {
    BigUint::from(x)
}

#[test]
fn print_float_pads_the_mantissa_in_binary() {
    let one = print_float::<Binary64>(&v(0x3ff0_0000_0000_0000));
    assert_eq!(one, format!("sign=0,exp=1023,man={}", "0".repeat(52)));
    assert_eq!(
        print_float::<Binary32>(&v(0xc049_0fdb)),
        "sign=1,exp=128,man=10010010000111111011011"
    );
    assert_eq!(print_float::<Binary16>(&v(0x0001)), "sign=0,exp=0,man=0000000001");
    assert_eq!(print_float::<Binary16>(&v(0xffff)), "sign=1,exp=31,man=1111111111");
    assert_eq!(print_float::<Binary16>(&v(0)), "sign=0,exp=0,man=0000000000");
}

#[test]
fn print_hardfloat_is_decimal() {
    assert_eq!(print_hardfloat::<Binary32>(&v(0x0_8000_0000)), "sign=0,exp=256,sig=0");
    assert_eq!(print_hardfloat::<Binary32>(&v(0x1_c000_0000)), "sign=1,exp=384,sig=0");
    assert_eq!(print_hardfloat::<Binary16>(&v(0x0_4bff)), "sign=0,exp=18,sig=1023");
    let recoded = to_hardfloat::<Binary32>(&v(0xc049_0fdb));
    assert_eq!(print_hardfloat::<Binary32>(&recoded), "sign=1,exp=257,sig=4788187");
}

#[test]
fn print_flopoco_is_decimal() {
    assert_eq!(
        print_flopoco::<Binary32>(&v(0x1_3f80_0000)),
        "exn=1,sign=0,exp=127,sig=0"
    );
    assert_eq!(print_flopoco::<Binary16>(&v(0x2_8000)), "exn=2,sign=1,exp=0,sig=0");
    assert_eq!(print_flopoco::<Binary16>(&v(0x3_0000)), "exn=3,sign=0,exp=0,sig=0");
    let flopoco = to_flopoco::<Binary32>(&v(0xc049_0fdb));
    assert_eq!(print_flopoco::<Binary32>(&flopoco), "exn=1,sign=1,exp=128,sig=4788187");
}

#[test]
fn hex_string_is_lower_case_behind_0x() {
    assert_eq!(hex_string(&v(0)), "0x0");
    assert_eq!(hex_string(&v(0xdead_beef)), "0xdeadbeef");
    assert_eq!(hex_string(&v(0x1_0000_0000_0000_0000)), "0x10000000000000000");
}

#[test]
fn one_in_binary64_shows_all_three_encodings() {
    let report = float_to_hex_lines::<Binary64>(&v(0x3ff0_0000_0000_0000));
    let lines: Vec<&str> = report.lines().collect();
    assert_eq!(lines.len(), 3);
    assert_eq!(
        lines[0],
        format!("    f64: 0x3ff0000000000000(sign=0,exp=1023,man={})", "0".repeat(52))
    );
    assert_eq!(lines[1], "    hf64: 0x8000000000000000(sign=0,exp=2048,sig=0)");
    assert_eq!(lines[2], "    fpcf64: 0x13ff0000000000000(exn=1,sign=0,exp=1023,sig=0)");
    assert!(report.ends_with(")\n"));
}

#[test]
fn report_names_the_format() {
    let report = float_to_hex_lines::<Binary16>(&v(0xfc00));
    assert_eq!(
        report,
        "    f16: 0xfc00(sign=1,exp=31,man=0000000000)\n    hf16: 0x1c000(sign=1,exp=48,sig=0)\n    fpcf16: 0x28000(exn=2,sign=1,exp=0,sig=0)\n"
    );
    let report = float_to_hex_lines::<Binary32>(&v(0));
    assert_eq!(
        report,
        format!(
            "    f32: 0x0(sign=0,exp=0,man={})\n    hf32: 0x0(sign=0,exp=0,sig=0)\n    fpcf32: 0x0(exn=0,sign=0,exp=0,sig=0)\n",
            "0".repeat(23)
        )
    );
}

#[test]
fn split_words_cuts_from_the_least_significant() {
    let num = v(0x3f80_0000_4000_0000_c049_0fdb);
    assert_eq!(
        split_words::<Binary32>(&num),
        vec![v(0xc049_0fdb), v(0x4000_0000), v(0x3f80_0000)]
    );
    assert_eq!(
        split_words::<Binary64>(&num),
        vec![v(0x4000_0000_c049_0fdb), v(0x3f80_0000)]
    );
    assert_eq!(
        split_words::<Binary16>(&v(0x1_3c00)),
        vec![v(0x3c00), v(0x0001)]
    );
    assert_eq!(split_words::<Binary16>(&v(0xffff)), vec![v(0xffff)]);
    assert_eq!(split_words::<Binary16>(&v(1)), vec![v(1)]);
    assert_eq!(split_words::<Binary16>(&v(0)), Vec::<BigUint>::new());
}
