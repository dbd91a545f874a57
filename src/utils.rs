//! Human-readable byte sizes.
use vstd::prelude::*;
use vstd::string::StringExecFns;

verus! {

/// The character of the decimal digit `d`.
pub open spec fn digit_char(d: nat) -> char {
    if d == 0 {
        '0'
    } else if d == 1 {
        '1'
    } else if d == 2 {
        '2'
    } else if d == 3 {
        '3'
    } else if d == 4 {
        '4'
    } else if d == 5 {
        '5'
    } else if d == 6 {
        '6'
    } else if d == 7 {
        '7'
    } else if d == 8 {
        '8'
    } else {
        '9'
    }
}

/// `n` written in decimal, without leading zeros.
pub open spec fn decimal(n: nat) -> Seq<char>
    decreases n,
{
    if n < 10 {
        seq![digit_char(n)]
    } else {
        decimal(n / 10) + seq![digit_char(n % 10)]
    }
}

/// `bytes` in the largest of B, kiB, MiB and GiB that it reaches, rounded down.
pub open spec fn size_text(bytes: nat) -> Seq<char> {
    if bytes < 0x400 {
        decimal(bytes) + seq!['B']
    } else if bytes < 0x10_0000 {
        decimal(bytes / 0x400) + seq!['k', 'i', 'B']
    } else if bytes < 0x4000_0000 {
        decimal(bytes / 0x10_0000) + seq!['M', 'i', 'B']
    } else {
        decimal(bytes / 0x4000_0000) + seq!['G', 'i', 'B']
    }
}

fn digit_str(d: u64) -> (r: &'static str)
    requires
        d < 10,
    ensures
        r@ == seq![digit_char(d as nat)],
{
    let r = if d == 0 {
        "0"
    } else if d == 1 {
        "1"
    } else if d == 2 {
        "2"
    } else if d == 3 {
        "3"
    } else if d == 4 {
        "4"
    } else if d == 5 {
        "5"
    } else if d == 6 {
        "6"
    } else if d == 7 {
        "7"
    } else if d == 8 {
        "8"
    } else {
        "9"
    };
    proof {
        reveal_strlit("0");
        reveal_strlit("1");
        reveal_strlit("2");
        reveal_strlit("3");
        reveal_strlit("4");
        reveal_strlit("5");
        reveal_strlit("6");
        reveal_strlit("7");
        reveal_strlit("8");
        reveal_strlit("9");
    }
    assert(r@ =~= seq![digit_char(d as nat)]);
    r
}

fn push_decimal(s: &mut String, n: u64)
    ensures
        final(s)@ == old(s)@ + decimal(n as nat),
    decreases n,
{
    if n >= 10 {
        push_decimal(s, n / 10);
    }
    s.append(digit_str(n % 10));
    assert(final(s)@ =~= old(s)@ + decimal(n as nat));
}

pub fn prettify_file_size(bytes: u64) -> (r: String)
    ensures
        r@ == size_text(bytes as nat),
{
    let mut r = String::new();
    if bytes < (1u64 << 10u64) {
        push_decimal(&mut r, bytes);
        r.append("B");
    } else if bytes < (1u64 << 20u64) {
        assert(bytes >> 10u64 == bytes / 0x400) by (bit_vector);
        push_decimal(&mut r, bytes >> 10u64);
        r.append("kiB");
    } else if bytes < (1u64 << 30u64) {
        assert(bytes >> 20u64 == bytes / 0x10_0000) by (bit_vector);
        push_decimal(&mut r, bytes >> 20u64);
        r.append("MiB");
    } else {
        assert(bytes >> 30u64 == bytes / 0x4000_0000) by (bit_vector);
        push_decimal(&mut r, bytes >> 30u64);
        r.append("GiB");
    }
    proof {
        reveal_strlit("B");
        reveal_strlit("kiB");
        reveal_strlit("MiB");
        reveal_strlit("GiB");
        assert(1u64 << 10u64 == 0x400) by (bit_vector);
        assert(1u64 << 20u64 == 0x10_0000) by (bit_vector);
        assert(1u64 << 30u64 == 0x4000_0000) by (bit_vector);
    }
    assert(r@ =~= size_text(bytes as nat));
    r
}

} // verus!
