//! Decimal and hexadecimal text.
use vstd::prelude::*;
use vstd::string::StringExecFns;

verus! {

/// The upper-case hexadecimal digit of a value below sixteen.
pub open spec fn digit(value: nat) -> char {
    if value == 0 {
        '0'
    } else if value == 1 {
        '1'
    } else if value == 2 {
        '2'
    } else if value == 3 {
        '3'
    } else if value == 4 {
        '4'
    } else if value == 5 {
        '5'
    } else if value == 6 {
        '6'
    } else if value == 7 {
        '7'
    } else if value == 8 {
        '8'
    } else if value == 9 {
        '9'
    } else if value == 10 {
        'A'
    } else if value == 11 {
        'B'
    } else if value == 12 {
        'C'
    } else if value == 13 {
        'D'
    } else if value == 14 {
        'E'
    } else {
        'F'
    }
}

/// `n` in the given base (at most sixteen), without leading zeros.
pub open spec fn numeral(n: nat, base: nat) -> Seq<char>
    decreases n,
    when base >= 2
{
    if n < base {
        seq![digit(n)]
    } else {
        proof {
            assert(n / base < n) by (nonlinear_arith)
                requires
                    n >= base,
                    base >= 2,
            ;
        }
        numeral(n / base, base).push(digit(n % base))
    }
}

/// `n` in decimal.
pub open spec fn decimal(n: nat) -> Seq<char> {
    numeral(n, 10)
}

/// `n` in upper-case hexadecimal, as short as possible.
pub open spec fn upper_hex(n: nat) -> Seq<char> {
    numeral(n, 16)
}

/// A byte as two hexadecimal digits.
pub open spec fn hex2(byte: u8) -> Seq<char> {
    seq![digit(byte as nat / 16), digit(byte as nat % 16)]
}

/// A word as eight hexadecimal digits, most significant first.
pub open spec fn hex8(word: u32) -> Seq<char> {
    hex2((word / 0x100_0000) as u8) + hex2((word / 0x1_0000 % 0x100) as u8) + hex2(
        (word / 0x100 % 0x100) as u8,
    ) + hex2((word % 0x100) as u8)
}

/// Bytes as two-digit groups separated by single spaces.
pub open spec fn hex_row(data: Seq<u8>) -> Seq<char>
    decreases data.len(),
{
    if data.len() == 0 {
        Seq::empty()
    } else if data.len() == 1 {
        hex2(data[0])
    } else {
        hex_row(data.drop_last()) + seq![' '] + hex2(data.last())
    }
}

/// The first `n` items of a sequence, or all of it when it is shorter.
pub open spec fn head<T>(s: Seq<T>, n: nat) -> Seq<T> {
    if n <= s.len() {
        s.subrange(0, n as int)
    } else {
        s
    }
}

fn digit_text(value: u8) -> (text: &'static str)
    requires
        value < 16,
    ensures
        text@ == seq![digit(value as nat)],
{
    proof {
        reveal_strlit("0");
        reveal_strlit("1");
        reveal_strlit("2");
        reveal_strlit("3");
        reveal_strlit("4");
        reveal_strlit("5");
        reveal_strlit("6");
        reveal_strlit("7");
        reveal_strlit("8");
        reveal_strlit("9");
        reveal_strlit("A");
        reveal_strlit("B");
        reveal_strlit("C");
        reveal_strlit("D");
        reveal_strlit("E");
        reveal_strlit("F");
    }
    let text = match value {
        0 => "0",
        1 => "1",
        2 => "2",
        3 => "3",
        4 => "4",
        5 => "5",
        6 => "6",
        7 => "7",
        8 => "8",
        9 => "9",
        10 => "A",
        11 => "B",
        12 => "C",
        13 => "D",
        14 => "E",
        _ => "F",
    };
    assert(text@ =~= seq![digit(value as nat)]);
    text
}

/// Append `n` in the given base.
fn push_numeral(out: &mut String, n: u64, base: u64)
    requires
        2 <= base <= 16,
    ensures
        final(out)@ == old(out)@ + numeral(n as nat, base as nat),
    decreases n,
{
    if n >= base {
        assert(n / base < n) by (nonlinear_arith)
            requires
                n >= base,
                base >= 2,
        ;
        push_numeral(out, n / base, base);
    }
    assert(n % base < base);
    out.append(digit_text((n % base) as u8));
    proof {
        if n < base {
            assert(n % base == n) by (nonlinear_arith)
                requires
                    n < base,
            ;
        }
        assert(out@ =~= old(out)@ + numeral(n as nat, base as nat));
    }
}

/// Append `n` in decimal.
pub fn push_decimal(out: &mut String, n: u64)
    ensures
        final(out)@ == old(out)@ + decimal(n as nat),
{
    push_numeral(out, n, 10);
}

/// Append `n` in upper-case hexadecimal.
pub fn push_upper_hex(out: &mut String, n: u64)
    ensures
        final(out)@ == old(out)@ + upper_hex(n as nat),
{
    push_numeral(out, n, 16);
}

/// Append `byte` as two hexadecimal digits.
pub fn push_hex2(out: &mut String, byte: u8)
    ensures
        final(out)@ == old(out)@ + hex2(byte),
{
    out.append(digit_text(byte / 16));
    out.append(digit_text(byte % 16));
    assert(out@ =~= old(out)@ + hex2(byte));
}

/// Append `word` as eight hexadecimal digits.
pub fn push_hex8(out: &mut String, word: u32)
    ensures
        final(out)@ == old(out)@ + hex8(word),
{
    push_hex2(out, (word / 0x100_0000) as u8);
    push_hex2(out, (word / 0x1_0000 % 0x100) as u8);
    push_hex2(out, (word / 0x100 % 0x100) as u8);
    push_hex2(out, (word % 0x100) as u8);
    assert(out@ =~= old(out)@ + hex8(word));
}

/// Dump the first `n` bytes of `data` in upper-case hexadecimal, separated by spaces.
pub fn hex(data: &[u8], n: usize) -> (text: String)
    ensures
        text@ == hex_row(head(data@, n as nat)),
{
    let count: usize = if n < data.len() { n } else { data.len() };
    let mut text = String::new();
    let ghost shown = head(data@, n as nat);
    let mut i: usize = 0;
    assert(shown.subrange(0, 0) =~= Seq::empty());
    while i < count
        invariant
            i <= count,
            count == shown.len(),
            count <= data@.len(),
            shown =~= data@.subrange(0, count as int),
            text@ == hex_row(shown.subrange(0, i as int)),
        decreases count - i,
    {
        let ghost next = shown.subrange(0, i + 1);
        if i > 0 {
            text.append(" ");
        }
        push_hex2(&mut text, data[i]);
        proof {
            reveal_strlit(" ");
            assert(" "@ =~= seq![' ']);
            assert(next.drop_last() =~= shown.subrange(0, i as int));
            assert(next.last() == data@[i as int]);
            assert(text@ =~= hex_row(next));
        }
        i = i + 1;
    }
    assert(shown.subrange(0, count as int) =~= shown);
    text
}

/// What a character is worth as a hexadecimal digit.
pub open spec fn digit_value(c: char) -> int {
    if '0' <= c <= '9' {
        c as int - '0' as int
    } else {
        c as int - 'A' as int + 10
    }
}

/// A character is a digit of a base: `0` to `9`, then `A` to `F`.
pub open spec fn is_digit(c: char, base: nat) -> bool {
    ('0' <= c <= '9' || 'A' <= c <= 'F') && digit_value(c) < base
}

/// The number that digits in a base spell.
pub open spec fn value_of(text: Seq<char>, base: nat) -> int
    decreases text.len(),
{
    if text.len() == 0 {
        0
    } else {
        value_of(text.drop_last(), base) * base + digit_value(text.last())
    }
}

/// `text` spells `n` in a base, in digits of that base and without leading zeros.
pub open spec fn spells(text: Seq<char>, base: nat, n: nat) -> bool {
    &&& text.len() >= 1
    &&& forall|i: int| 0 <= i < text.len() ==> is_digit(#[trigger] text[i], base)
    &&& n > 0 ==> text[0] != '0'
    &&& value_of(text, base) == n
}

/// A digit is worth what it was made of.
pub proof fn law_digit(value: nat)
    requires
        value < 16,
    ensures
        digit_value(digit(value)) == value,
        is_digit(digit(value), 16),
{
}

/// Reading a numeral gives the number that it was made of.
proof fn lemma_numeral_spells(n: nat, base: nat)
    requires
        2 <= base <= 16,
    ensures
        spells(numeral(n, base), base, n),
    decreases n,
{
    let text = numeral(n, base);
    if n < base {
        law_digit(n);
        assert(text.drop_last() =~= Seq::empty());
        assert(value_of(text.drop_last(), base) == 0);
        assert(0 * base == 0) by (nonlinear_arith);
    } else {
        assert(n / base < n && n / base >= 1 && n == n / base * base + n % base && n % base < base)
            by (nonlinear_arith)
            requires
                n >= base,
                base >= 2,
        ;
        lemma_numeral_spells(n / base, base);
        let upper = numeral(n / base, base);
        law_digit(n % base);
        assert(text.drop_last() =~= upper);
        assert forall|i: int| 0 <= i < text.len() implies is_digit(#[trigger] text[i], base) by {
            if i < upper.len() {
                assert(text[i] == upper[i]);
            }
        }
        assert(text[0] == upper[0]);
    }
}

/// Decimal numbers read as what they were made of.
pub proof fn law_decimal(n: nat)
    ensures
        spells(decimal(n), 10, n),
{
    lemma_numeral_spells(n, 10);
}

/// Hexadecimal numbers read as what they were made of.
pub proof fn law_upper_hex(n: nat)
    ensures
        spells(upper_hex(n), 16, n),
{
    lemma_numeral_spells(n, 16);
}

/// A byte takes two hexadecimal digits, and they read as the byte.
pub proof fn law_hex2(byte: u8)
    ensures
        hex2(byte).len() == 2,
        is_digit(hex2(byte)[0], 16),
        is_digit(hex2(byte)[1], 16),
        value_of(hex2(byte), 16) == byte,
{
    let text = hex2(byte);
    law_digit(byte as nat / 16);
    law_digit(byte as nat % 16);
    reveal_with_fuel(value_of, 3);
    assert(text.drop_last().drop_last() =~= Seq::empty());
    assert(text.drop_last().last() == text[0]);
}

/// The four bytes of a word, most significant first.
proof fn lemma_word_split(word: u32)
    ensures
        word as int == 0x100_0000 * ((word / 0x100_0000) as u8) + 0x1_0000 * ((word / 0x1_0000
            % 0x100) as u8) + 0x100 * ((word / 0x100 % 0x100) as u8) + ((word % 0x100) as u8),
{
    let upper = word / 0x100;
    assert(word == 0x100 * upper + word % 0x100);
    assert(upper == 0x100 * (upper / 0x100) + upper % 0x100);
    assert(upper / 0x100 == word / 0x1_0000);
    assert(word / 0x1_0000 == 0x100 * (word / 0x100_0000) + word / 0x1_0000 % 0x100);
}

/// A word takes eight hexadecimal digits: those of its bytes, most significant first.
#[verifier::spinoff_prover]
pub proof fn law_hex8(word: u32)
    ensures
        hex8(word).len() == 8,
        forall|i: int| 0 <= i < 8 ==> is_digit(#[trigger] hex8(word)[i], 16),
        word as int == 0x100_0000 * value_of(hex8(word).subrange(0, 2), 16) + 0x1_0000 * value_of(
            hex8(word).subrange(2, 4),
            16,
        ) + 0x100 * value_of(hex8(word).subrange(4, 6), 16) + value_of(
            hex8(word).subrange(6, 8),
            16,
        ),
{
    let text = hex8(word);
    let a = (word / 0x100_0000) as u8;
    let b = (word / 0x1_0000 % 0x100) as u8;
    let c = (word / 0x100 % 0x100) as u8;
    let d = (word % 0x100) as u8;
    lemma_word_split(word);
    law_hex2(a);
    law_hex2(b);
    law_hex2(c);
    law_hex2(d);
    assert(text.subrange(0, 2) =~= hex2(a));
    assert(text.subrange(2, 4) =~= hex2(b));
    assert(text.subrange(4, 6) =~= hex2(c));
    assert(text.subrange(6, 8) =~= hex2(d));
    assert forall|i: int| 0 <= i < 8 implies is_digit(#[trigger] text[i], 16) by {
        assert(text.len() == 8);
        if i < 2 {
            assert(text[i] == hex2(a)[i]);
        } else if i < 4 {
            assert(text[i] == hex2(b)[i - 2]);
        } else if i < 6 {
            assert(text[i] == hex2(c)[i - 4]);
        } else {
            assert(text[i] == hex2(d)[i - 6]);
        }
    }
}

/// A dump shows byte `k` at column `3 * k`, with one space between any two bytes and nothing else.
pub proof fn law_hex_row(data: Seq<u8>)
    ensures
        hex_row(data).len() == if data.len() == 0 {
            0
        } else {
            3 * data.len() - 1
        },
        forall|k: int|
            0 <= k < data.len() ==> hex_row(data).subrange(3 * k, 3 * k + 2) == hex2(
                #[trigger] data[k],
            ),
        forall|k: int|
            0 <= k < data.len() - 1 ==> hex_row(data).subrange(3 * k, 3 * k + 3) == hex2(
                #[trigger] data[k],
            ).push(' '),
    decreases data.len(),
{
    let row = hex_row(data);
    if data.len() == 1 {
        assert(row.subrange(0, 2) =~= hex2(data[0]));
    } else if data.len() > 1 {
        let before = data.drop_last();
        let n = data.len() - 1;
        law_hex_row(before);
        assert forall|k: int| 0 <= k < data.len() implies row.subrange(3 * k, 3 * k + 2) == hex2(
            #[trigger] data[k],
        ) by {
            if k < n {
                assert(before[k] == data[k]);
                assert(row.subrange(3 * k, 3 * k + 2) =~= hex_row(before).subrange(
                    3 * k,
                    3 * k + 2,
                ));
            } else {
                assert(row.subrange(3 * k, 3 * k + 2) =~= hex2(data[k]));
            }
        }
        assert forall|k: int| 0 <= k < data.len() - 1 implies row.subrange(3 * k, 3 * k + 3)
            == hex2(#[trigger] data[k]).push(' ') by {
            assert(before[k] == data[k]);
            assert(row.subrange(3 * k, 3 * k + 2) == hex2(data[k]));
            if k < n - 1 {
                assert(row.subrange(3 * k, 3 * k + 3) =~= hex_row(before).subrange(
                    3 * k,
                    3 * k + 3,
                ));
            } else {
                assert(row[3 * k + 2] == ' ');
                assert(row.subrange(3 * k, 3 * k + 3) =~= row.subrange(3 * k, 3 * k + 2).push(' '));
            }
        }
    }
}

/// The head of a sequence is as long as asked for and as there is, and starts like the sequence.
pub proof fn law_head<T>(s: Seq<T>, n: nat)
    ensures
        head(s, n).len() <= n,
        head(s, n).len() <= s.len(),
        head(s, n).len() == n || head(s, n).len() == s.len(),
        forall|i: int| 0 <= i < head(s, n).len() ==> head(s, n)[i] == #[trigger] s[i],
{
}

} // verus!
