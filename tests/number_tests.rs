use conv_bit::number::Number;

#[test]
fn _number_creation_and_formatting() {
    let num1 = Number::new(10);
    assert_eq!(num1.decimal, 10);
    assert_eq!(num1.binary, "0000_1010");

    let num2 = Number::new(42);
    assert_eq!(num2.decimal, 42);
    assert_eq!(num2.binary, "0010_1010");

    let num3 = Number::new(48879);
    assert_eq!(num3.decimal, 48879);
    assert_eq!(num3.binary, "1011_1110_1110_1111");

    let num4 = Number::new(255);
    assert_eq!(num4.decimal, 255);
    assert_eq!(num4.binary, "1111_1111");

    let num5 = Number::new(0);
    assert_eq!(num5.decimal, 0);
    assert_eq!(num5.binary, "0000_0000");
}

#[test]
fn _display_trait() {
    let num = Number::new(105);
    let formatted_string = num.to_display_string();
    assert_eq!(formatted_string, "10진수로: 105, 2진수로: 0110_1001");
}

#[test]
fn padding_widths() {
    assert_eq!(Number::new(1).binary, "0000_0001");
    assert_eq!(Number::new(256).binary, "0000_0001_0000_0000");
    assert_eq!(Number::new(65535).binary, "1111_1111_1111_1111");
    assert_eq!(Number::new(65536).binary, "0000_0001_0000_0000_0000_0000");
    assert_eq!(Number::new(16777215).binary, "1111_1111_1111_1111_1111_1111");
    assert_eq!(Number::new(16777216).binary, "0000_0001_0000_0000_0000_0000_0000_0000");
    assert_eq!(Number::new(u32::MAX).binary, "1111_1111_1111_1111_1111_1111_1111_1111");
}

#[test]
fn display_form_of_zero_and_largest() {
    assert_eq!(Number::new(0).to_display_string(), "10진수로: 0, 2진수로: 0000_0000");
    assert_eq!(
        Number::new(u32::MAX).to_display_string(),
        "10진수로: 4294967295, 2진수로: 1111_1111_1111_1111_1111_1111_1111_1111"
    );
    assert_eq!(
        Number::new(48879).to_display_string(),
        "10진수로: 48879, 2진수로: 1011_1110_1110_1111"
    );
}
