//! A number held together with its binary form, zero-padded to a whole
//! number of bytes and grouped in fours with `_`.
use vstd::arithmetic::power2::{lemma2_to64, lemma_pow2_unfold, pow2};
use vstd::prelude::*;

verus! {

/// The digit character for a binary digit.
pub open spec fn bin_char(d: nat) -> char {
    if d == 0 {
        '0'
    } else {
        '1'
    }
}

/// The shortest binary numeral of `n`: no leading zeros, `"0"` for zero.
pub open spec fn binary_digits(n: nat) -> Seq<char>
    decreases n,
{
    if n < 2 {
        seq![bin_char(n)]
    } else {
        binary_digits(n / 2).push(bin_char(n % 2))
    }
}

/// The width that a numeral of `len` digits is padded to: the least of 8, 16, 24
/// and 32 that holds it, and 32 for anything longer.
pub open spec fn padded_width(len: nat) -> nat {
    if len <= 8 {
        8
    } else if len <= 16 {
        16
    } else if len <= 24 {
        24
    } else {
        32
    }
}

/// `s` with zeros put in front of it up to width `w`.
pub open spec fn zero_padded(s: Seq<char>, w: nat) -> Seq<char> {
    Seq::new((w - s.len()) as nat, |_i: int| '0') + s
}

/// `s` with a `_` put between every four characters, counted from the right end.
pub open spec fn grouped(s: Seq<char>) -> Seq<char>
    decreases s.len(),
{
    if s.len() <= 4 {
        s
    } else {
        grouped(s.subrange(0, s.len() - 4)) + seq!['_'] + s.subrange(s.len() - 4, s.len() as int)
    }
}

/// The shortest binary numeral of `n`, padded with zeros to its width.
pub open spec fn padded_binary(n: nat) -> Seq<char> {
    zero_padded(binary_digits(n), padded_width(binary_digits(n).len()))
}

/// The binary form that a `Number` holds for `n`.
pub open spec fn formatted_binary(n: nat) -> Seq<char> {
    grouped(padded_binary(n))
}

/// The digit character for a decimal digit.
pub open spec fn dec_char(d: nat) -> char {
    seq!['0', '1', '2', '3', '4', '5', '6', '7', '8', '9'][d as int]
}

/// The decimal numeral of `n`: no leading zeros, `"0"` for zero.
pub open spec fn decimal_digits(n: nat) -> Seq<char>
    decreases n,
{
    if n < 10 {
        seq![dec_char(n)]
    } else {
        decimal_digits(n / 10).push(dec_char(n % 10))
    }
}

/// The display form of a number: a label, its decimal numeral, a second label
/// and its binary form.
pub open spec fn display_form(decimal: nat, binary: Seq<char>) -> Seq<char> {
    "10진수로: "@ + decimal_digits(decimal) + ", 2진수로: "@ + binary
}

/// The low `k` binary digits of `n`, most significant first.
pub open spec fn width_digits(n: nat, k: nat) -> Seq<char>
    decreases k,
{
    if k == 0 {
        Seq::empty()
    } else {
        width_digits(n / 2, (k - 1) as nat).push(bin_char(n % 2))
    }
}

/// A numeral of `n` is no longer than `k` digits when `n < 2^k`.
proof fn lemma_binary_digits_len(n: nat, k: nat)
    requires
        k >= 1,
        n < pow2(k),
    ensures
        binary_digits(n).len() <= k,
    decreases n,
{
    if n >= 2 {
        lemma_pow2_unfold(k);
        if k == 1 {
            assert(pow2(0) == 1) by {
                lemma2_to64();
            }
        } else {
            lemma_binary_digits_len(n / 2, (k - 1) as nat);
        }
    }
}

/// The low `k` digits of `n` are its shortest numeral padded to width `k`,
/// once `k` holds that numeral.
proof fn lemma_width_digits_padded(n: nat, k: nat)
    requires
        binary_digits(n).len() <= k,
    ensures
        width_digits(n, k) == zero_padded(binary_digits(n), k),
    decreases k,
{
    let d = binary_digits(n);
    if n < 2 {
        if k == 1 {
            assert(width_digits(n / 2, 0) =~= Seq::<char>::empty());
            assert(width_digits(n, k) =~= zero_padded(d, k));
        } else {
            lemma_width_digits_padded(0, (k - 1) as nat);
            assert(width_digits(n, k) =~= zero_padded(d, k));
        }
    } else {
        lemma_width_digits_padded(n / 2, (k - 1) as nat);
        assert(width_digits(n, k) =~= zero_padded(d, k));
    }
}

/// A number together with its binary form.
#[derive(Debug)]
pub struct Number {
    /// The value.
    pub decimal: u32,
    /// The binary numeral of `decimal`, zero-padded to 8, 16, 24 or 32 digits
    /// and grouped in fours with `_`.
    pub binary: String,
}

impl Number {
    /// `binary` is the binary form of `decimal`.
    pub open spec fn wf(&self) -> bool {
        self.binary@ == formatted_binary(self.decimal as nat)
    }

    /// Makes a `Number` of `decimal_value`, with its binary form.
    pub fn new(decimal_value: u32) -> (r: Number)
        ensures
            r.decimal == decimal_value,
            r.wf(),
    {
        Number { decimal: decimal_value, binary: Self::format_binary_with_separator(decimal_value) }
    }

    /// The display form: the decimal value and the binary form, each after its label.
    pub fn to_display_string(&self) -> (r: String)
        ensures
            r@ == display_form(self.decimal as nat, self.binary@),
    {
        let mut r = String::from_str("10진수로: ");
        push_decimal(&mut r, self.decimal);
        r.append(", 2진수로: ");
        r.append(self.binary.as_str());
        r
    }

    /// The binary numeral of `n`, zero-padded to 8, 16, 24 or 32 digits and
    /// grouped in fours with `_` from the right.
    fn format_binary_with_separator(n: u32) -> (r: String)
        ensures
            r@ == formatted_binary(n as nat),
    {
        // the length of the shortest numeral
        let mut len: usize = 1;
        let mut m: u32 = n;
        proof {
            assert(pow2(32) == 0x1_0000_0000) by {
                lemma2_to64();
            }
            lemma_binary_digits_len(n as nat, 32);
        }
        while m >= 2
            invariant
                len + binary_digits(m as nat).len() == binary_digits(n as nat).len() + 1,
                binary_digits(n as nat).len() <= 32,
            decreases m,
        {
            m = m / 2;
            len = len + 1;
        }
        let width: usize = if len <= 8 {
            8
        } else if len <= 16 {
            16
        } else if len <= 24 {
            24
        } else {
            32
        };
        // the low `width` digits, most significant first
        let mut digits: [char; 32] = ['0'; 32];
        let mut k: usize = width;
        let mut m: u32 = n;
        assert(digits@.subrange(width as int, width as int) =~= Seq::<char>::empty());
        while k > 0
            invariant
                k <= width <= 32,
                width_digits(n as nat, width as nat) == width_digits(m as nat, k as nat)
                    + digits@.subrange(k as int, width as int),
                forall|j: int| 0 <= j < 32 ==> digits@[j] == '0' || digits@[j] == '1',
            decreases k,
        {
            let ghost before = digits@;
            digits[k - 1] = if m % 2 == 1 {
                '1'
            } else {
                '0'
            };
            assert(digits@.subrange(k - 1, width as int) =~= seq![bin_char(m as nat % 2)]
                + before.subrange(k as int, width as int));
            m = m / 2;
            k = k - 1;
        }
        proof {
            assert(digits@.subrange(0, width as int) =~= width_digits(n as nat, width as nat));
            lemma_width_digits_padded(n as nat, width as nat);
        }
        // the digits in groups of four
        let mut r = String::new();
        let groups: usize = width / 4;
        for g in 0..groups
            invariant
                groups == width / 4,
                width % 4 == 0,
                width <= 32,
                r@ == grouped(digits@.subrange(0, 4 * g)),
                forall|j: int| 0 <= j < 32 ==> digits@[j] == '0' || digits@[j] == '1',
        {
            if g > 0 {
                r.append("_");
                proof {
                    reveal_strlit("_");
                }
            }
            let ghost head = r@;
            for j in 0..4
                invariant
                    4 * g + 4 <= width <= 32,
                    r@ == head + digits@.subrange(4 * g, 4 * g + j),
                    forall|i: int| 0 <= i < 32 ==> digits@[i] == '0' || digits@[i] == '1',
            {
                push_digit(&mut r, digits[4 * g + j]);
                assert(digits@.subrange(4 * g, 4 * g + j + 1) =~= digits@.subrange(4 * g, 4 * g + j).push(
                    digits@[4 * g + j],
                ));
            }
            let ghost t = digits@.subrange(0, 4 * g + 4);
            assert(t.subrange(0, 4 * g) =~= digits@.subrange(0, 4 * g));
            assert(t.subrange(4 * g, 4 * g + 4) =~= digits@.subrange(4 * g, 4 * g + 4));
        }
        r
    }
}

/// Appends a binary digit character to `s`.
fn push_digit(s: &mut String, c: char)
    requires
        c == '0' || c == '1',
    ensures
        final(s)@ == old(s)@.push(c),
{
    if c == '1' {
        s.append("1");
        proof {
            reveal_strlit("1");
        }
    } else {
        s.append("0");
        proof {
            reveal_strlit("0");
        }
    }
    assert(s@ =~= old(s)@.push(c));
}

/// Appends the decimal numeral of `n` to `s`.
fn push_decimal(s: &mut String, n: u32)
    ensures
        final(s)@ == old(s)@ + decimal_digits(n as nat),
    decreases n,
{
    if n >= 10 {
        push_decimal(s, n / 10);
    }
    let d: usize = (n % 10) as usize;
    proof {
        reveal_strlit("0123456789");
    }
    s.append("0123456789".substring_char(d, d + 1));
    proof {
        assert("0123456789"@.subrange(d as int, d + 1) =~= seq![dec_char(d as nat)]);
    }
    assert(s@ =~= old(s)@ + decimal_digits(n as nat));
}

} // verus!
