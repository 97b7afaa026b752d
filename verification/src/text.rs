//! Numbers and bytes as text.

use vstd::prelude::*;

verus! {

/// The character of a digit, from `0` to `9` and on from `a` to `f`.
pub open spec fn digit(d: nat) -> char {
    if d < 10 {
        ('0' as u32 + d) as char
    } else {
        ('a' as u32 + d - 10) as char
    }
}

/// A number in decimal, without leading zeros.
pub open spec fn decimal(n: nat) -> Seq<char>
    decreases n,
{
    if n < 10 {
        seq![digit(n)]
    } else {
        decimal(n / 10).push(digit(n % 10))
    }
}

/// Bytes in lower-case hexadecimal, two digits each, the high one first.
pub open spec fn lower_hex(bytes: Seq<u8>) -> Seq<char> {
    Seq::new(
        2 * bytes.len(),
        |i: int|
            if i % 2 == 0 {
                digit((bytes[i / 2] / 16) as nat)
            } else {
                digit((bytes[i / 2] % 16) as nat)
            },
    )
}

/// `u128::to_string`, of the standard library: the number in decimal.
#[verifier::external_body]
pub(crate) fn decimal_text(n: u128) -> (r: String)
    ensures
        r@ == decimal(n as nat),
{
    n.to_string()
}

/// `hex::encode`: two lower-case hexadecimal digits for each byte, in the order of the
/// bytes. The text must be no longer than a `String` can be on any machine.
#[verifier::external_body]
pub(crate) fn hex_text(bytes: &[u8]) -> (r: String)
    requires
        bytes@.len() <= 0x3fff_ffff,
    ensures
        r@ == lower_hex(bytes@),
{
    hex::encode(bytes)
}

/// Different numbers have different decimals.
pub proof fn law_decimal_is_injective(a: nat, b: nat)
    requires
        decimal(a) == decimal(b),
    ensures
        a == b,
    decreases a,
{
    lemma_decimal_len(a);
    lemma_decimal_len(b);
    let last = decimal(a).last();
    assert(last == digit(a % 10));
    assert(last == digit(b % 10));
    assert(a % 10 == b % 10);
    if a >= 10 && b >= 10 {
        assert(decimal(a).drop_last() =~= decimal(a / 10));
        assert(decimal(b).drop_last() =~= decimal(b / 10));
        law_decimal_is_injective(a / 10, b / 10);
    }
}

proof fn lemma_decimal_len(n: nat)
    ensures
        decimal(n).len() >= 1,
        decimal(n).len() == 1 <==> n < 10,
    decreases n,
{
    if n >= 10 {
        lemma_decimal_len(n / 10);
    }
}

/// Read as decimal digits from the left, the decimals of a number give the number. There
/// are only digits, and the first is zero for zero alone.
pub proof fn law_decimal_is_read_back(n: nat)
    ensures
        decimal(n).fold_left(0int, |value: int, c: char| 10 * value + (c as u32 - '0' as u32)) == n,
        decimal(n).len() > 0,
        forall|i: int| 0 <= i < decimal(n).len() ==> '0' <= #[trigger] decimal(n)[i] <= '9',
        decimal(n)[0] == '0' <==> n == 0,
    decreases n,
{
    let f = |value: int, c: char| 10 * value + (c as u32 - '0' as u32);
    let text = decimal(n);
    reveal_with_fuel(Seq::fold_left, 2);
    if n < 10 {
        assert(text.drop_last() =~= Seq::empty());
        assert(text.last() == digit(n));
    } else {
        law_decimal_is_read_back(n / 10);
        assert(text.drop_last() =~= decimal(n / 10));
        assert(text.last() == digit(n % 10));
        assert(text.fold_left(0int, f) == f(decimal(n / 10).fold_left(0int, f), text.last()));
        assert forall|i: int| 0 <= i < text.len() implies '0' <= #[trigger] text[i] <= '9' by {
            if i < text.len() - 1 {
                assert(text[i] == decimal(n / 10)[i]);
            }
        }
        assert(text[0] == decimal(n / 10)[0]);
    }
}

/// The hexadecimal text has two digits for each byte, in the order of the bytes: that of
/// its upper half, then that of its lower half.
pub proof fn law_hex_digits(bytes: Seq<u8>)
    ensures
        lower_hex(bytes).len() == 2 * bytes.len(),
        forall|i: int|
            #![trigger bytes[i]]
            0 <= i < bytes.len() ==> {
                &&& lower_hex(bytes)[2 * i] == "0123456789abcdef"@[bytes[i] as int / 16]
                &&& lower_hex(bytes)[2 * i + 1] == "0123456789abcdef"@[bytes[i] as int % 16]
            },
{
    reveal_strlit("0123456789abcdef");
    assert forall|i: int| #![trigger bytes[i]] 0 <= i < bytes.len() implies {
        &&& lower_hex(bytes)[2 * i] == "0123456789abcdef"@[bytes[i] as int / 16]
        &&& lower_hex(bytes)[2 * i + 1] == "0123456789abcdef"@[bytes[i] as int % 16]
    } by {
        assert(lower_hex(bytes)[2 * i] == digit((bytes[i] / 16) as nat));
        assert(lower_hex(bytes)[2 * i + 1] == digit((bytes[i] % 16) as nat));
        lemma_digit((bytes[i] / 16) as nat);
        lemma_digit((bytes[i] % 16) as nat);
    }
}

/// The characters of the sixteen digits.
proof fn lemma_digit(d: nat)
    requires
        d < 16,
    ensures
        digit(d) == "0123456789abcdef"@[d as int],
{
    reveal_strlit("0123456789abcdef");
    let all = "0123456789abcdef"@;
    assert(all[0] == '0' && all[1] == '1' && all[2] == '2' && all[3] == '3');
    assert(all[4] == '4' && all[5] == '5' && all[6] == '6' && all[7] == '7');
    assert(all[8] == '8' && all[9] == '9' && all[10] == 'a' && all[11] == 'b');
    assert(all[12] == 'c' && all[13] == 'd' && all[14] == 'e' && all[15] == 'f');
}

/// Different byte strings have different hexadecimal texts.
pub proof fn law_hex_is_injective(a: Seq<u8>, b: Seq<u8>)
    requires
        lower_hex(a) == lower_hex(b),
    ensures
        a == b,
{
    assert(lower_hex(a).len() == 2 * a.len());
    assert(lower_hex(b).len() == 2 * b.len());
    assert forall|i: int| 0 <= i < a.len() implies a[i] == b[i] by {
        assert(lower_hex(a)[2 * i] == digit((a[i] / 16) as nat));
        assert(lower_hex(b)[2 * i] == digit((b[i] / 16) as nat));
        assert(lower_hex(a)[2 * i + 1] == digit((a[i] % 16) as nat));
        assert(lower_hex(b)[2 * i + 1] == digit((b[i] % 16) as nat));
        assert((a[i] / 16) as nat == (b[i] / 16) as nat);
        assert((a[i] % 16) as nat == (b[i] % 16) as nat);
    }
    assert(a =~= b);
}

} // verus!
