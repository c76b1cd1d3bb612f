//! Small language demonstrations kept alongside the optimizer: a
//! three-way comparison against ten, and a tour of the integer types and
//! literal bases.

use vstd::prelude::*;

verus! {

/// Says whether `number` lies above, below or exactly at ten.
pub fn compare_to_ten(number: i32) -> (r: &'static str)
    ensures
        number > 10 ==> r@ == "more than"@,
        number < 10 ==> r@ == "less than"@,
        number == 10 ==> r@ == "equal to"@,
{
    if number > 10 {
        "more than"
    } else if number < 10 {
        "less than"
    } else {
        "equal to"
    }
}

/// Walks through the primitive data types: booleans, the signed and
/// unsigned integer widths, and integer literals in binary, octal and
/// hexadecimal. Floating-point examples have no place in verified code
/// and are left out.
pub fn datatypes() {
    // boolean
    let _x: bool = true;
    let _x: bool = false;

    // signed
    let _x: i32 = -154555;
    let _x: i8 = 34;
    let _x: i16 = 34;
    let _x: i32 = 34;
    let _x: isize = 34;
    let _x: i64 = 34;
    let _x: i128 = -1115553125464645;

    // unsigned
    let _x: u8 = 34;
    let _x: u16 = 34;
    let _x: u32 = 34;
    let _x: usize = 34;
    let _x: u64 = 34;
    let _x: u128 = 34;

    // binary, octal, hex; underscores in literals are ignored
    let _x: u32 = 12;
    let _x: u32 = 0b1100;
    assert(0b1100u32 == 12);
    let _x: u32 = 0o14;
    assert(0o14u32 == 12);
    let _x: u32 = 0xe;
    assert(0xeu32 == 14);
    let _x: u32 = 0b_1100_0011_1011_0001;
    assert(0b_1100_0011_1011_0001u32 == 0xc3b1);
}

} // verus!
