//! Numbers written out in digits, and strings from their bytes.

use vstd::prelude::*;
use vstd::string::StringExecFns;

verus! {

/// The character that stands for the digit `d` of a number in base sixteen or
/// below.
pub open spec fn digit(d: nat) -> char
    recommends
        d < 16,
{
    if d < 10 {
        ('0' as u32 + d) as char
    } else {
        ('a' as u32 + (d - 10)) as char
    }
}

/// `n` in decimal digits, without leading zeros.
pub open spec fn decimal(n: nat) -> Seq<char>
    decreases n,
{
    if n < 10 {
        seq![digit(n)]
    } else {
        decimal(n / 10).push(digit(n % 10))
    }
}

/// The last `width` hexadecimal digits of `n`, in lower case.
pub open spec fn hex(n: nat, width: nat) -> Seq<char>
    decreases width,
{
    if width == 0 {
        Seq::empty()
    } else {
        hex(n / 16, (width - 1) as nat).push(digit(n % 16))
    }
}

/// `bytes` in hexadecimal, two digits for each.
pub open spec fn hex_of(bytes: Seq<u8>) -> Seq<char>
    decreases bytes.len(),
{
    if bytes.len() == 0 {
        Seq::empty()
    } else {
        hex_of(bytes.drop_last()) + hex(bytes.last() as nat, 2)
    }
}

/// Two digits stand for each byte.
pub proof fn lemma_hex_of_len(bytes: Seq<u8>)
    ensures
        hex_of(bytes).len() == 2 * bytes.len(),
    decreases bytes.len(),
{
    if bytes.len() > 0 {
        lemma_hex_of_len(bytes.drop_last());
        reveal_with_fuel(hex, 3);
    }
}

/// Different bytes have different digits.
pub proof fn lemma_hex_of_injective(a: Seq<u8>, b: Seq<u8>)
    requires
        hex_of(a) == hex_of(b),
    ensures
        a == b,
    decreases a.len(),
{
    lemma_hex_of_len(a);
    lemma_hex_of_len(b);
    if a.len() == 0 {
        assert(a =~= b);
    } else {
        let (x, y) = (a.last() as nat, b.last() as nat);
        let n = hex_of(a).len() as int;
        reveal_with_fuel(hex, 3);
        lemma_hex_of_len(a.drop_last());
        lemma_hex_of_len(b.drop_last());
        assert(hex_of(a).take(n - 2) =~= hex_of(a.drop_last()));
        assert(hex_of(b).take(n - 2) =~= hex_of(b.drop_last()));
        lemma_hex_of_injective(a.drop_last(), b.drop_last());
        assert(hex_of(a)[n - 1] == digit(x % 16) && hex_of(b)[n - 1] == digit(y % 16));
        assert(hex_of(a)[n - 2] == digit(x / 16 % 16) && hex_of(b)[n - 2] == digit(y / 16 % 16));
        assert(x == y);
        assert(a =~= a.drop_last().push(a.last()));
        assert(b =~= b.drop_last().push(b.last()));
    }
}

/// The error of `String::from_utf8`, of which nothing is stated.
#[verifier::external_type_specification]
#[verifier::external_body]
pub struct ExFromUtf8Error(std::string::FromUtf8Error);

/// `String::from_utf8` accepts exactly the byte sequences that are valid UTF-8,
/// and decodes them. Nothing is stated of the error that it gives for others.
pub assume_specification[ std::string::String::from_utf8 ](vec: Vec<u8>) -> (result: Result<
    std::string::String,
    std::string::FromUtf8Error,
>)
    ensures
        result is Ok <==> vstd::utf8::valid_utf8(vec@),
        result matches Ok(string) ==> string@ == vstd::utf8::decode_utf8(vec@),
;

/// The digit `d` as a string of one character.
fn digit_text(d: u8) -> (s: &'static str)
    requires
        d < 16,
    ensures
        s@ == seq![digit(d as nat)],
{
    proof {
        reveal_strlit("0");
        reveal_strlit("1");
        reveal_strlit("2");
        reveal_strlit("3");
        reveal_strlit("4");
        reveal_strlit("5");
        reveal_strlit("6");
        reveal_strlit("7");
        reveal_strlit("8");
        reveal_strlit("9");
        reveal_strlit("a");
        reveal_strlit("b");
        reveal_strlit("c");
        reveal_strlit("d");
        reveal_strlit("e");
        reveal_strlit("f");
    }
    match d {
        0 => "0",
        1 => "1",
        2 => "2",
        3 => "3",
        4 => "4",
        5 => "5",
        6 => "6",
        7 => "7",
        8 => "8",
        9 => "9",
        10 => "a",
        11 => "b",
        12 => "c",
        13 => "d",
        14 => "e",
        _ => "f",
    }
}

/// A piece of text under construction.
pub struct Draft {
    pub text: String,
}

impl View for Draft {
    type V = Seq<char>;

    open spec fn view(&self) -> Seq<char> {
        self.text@
    }
}

/// A draft that holds `words`.
pub fn start(words: &str) -> (draft: Draft)
    ensures
        draft@ == words@,
{
    Draft { text: words.to_owned() }
}

impl Draft {
    /// The draft with `words` behind it.
    pub fn words(self, words: &str) -> (draft: Draft)
        ensures
            draft@ == self@ + words@,
    {
        Draft { text: self.text.concat(words) }
    }

    /// The draft with `n` in decimal behind it.
    pub fn number(self, n: u64) -> (draft: Draft)
        ensures
            draft@ == self@ + decimal(n as nat),
        decreases n,
    {
        let last: u8 = (n % 10) as u8;
        if n < 10 {
            self.words(digit_text(last))
        } else {
            let longer = self.number(n / 10).words(digit_text(last));
            assert(longer@ == self@ + decimal(n as nat));
            longer
        }
    }

    /// The draft with the last `width` hexadecimal digits of `n` behind it.
    pub fn hexadecimal(self, n: u32, width: u32) -> (draft: Draft)
        ensures
            draft@ == self@ + hex(n as nat, width as nat),
        decreases width,
    {
        if width == 0 {
            assert(self@ + Seq::<char>::empty() == self@);
            self
        } else {
            let last: u8 = (n % 16) as u8;
            let longer = self.hexadecimal(n / 16, width - 1).words(digit_text(last));
            assert(longer@ == self@ + hex(n as nat, width as nat));
            longer
        }
    }

    /// The draft with `bytes` in hexadecimal behind it.
    pub fn hex_bytes(self, bytes: &[u8]) -> (draft: Draft)
        ensures
            draft@ == self@ + hex_of(bytes@),
    {
        let ghost before = self@;
        let mut draft = self;
        let mut i: usize = 0;
        proof {
            assert(before + hex_of(bytes@.take(0)) == before);
        }
        while i < bytes.len()
            invariant
                i <= bytes@.len(),
                draft@ == before + hex_of(bytes@.take(i as int)),
            decreases bytes@.len() - i,
        {
            draft = draft.hexadecimal(bytes[i] as u32, 2);
            i = i + 1;
            proof {
                assert(bytes@.take(i as int).drop_last() == bytes@.take(i - 1));
                assert(draft@ == before + hex_of(bytes@.take(i as int)));
            }
        }
        assert(bytes@.take(i as int) == bytes@);
        draft
    }

    /// The finished text.
    pub fn finish(self) -> (text: String)
        ensures
            text@ == self@,
    {
        self.text
    }
}

/// The digits up to nine are the characters from '0' on, and those behind them
/// the characters from 'a' on.
pub proof fn law_digit(d: nat)
    requires
        d < 16,
    ensures
        d < 10 ==> digit(d) as int == '0' as int + d,
        d >= 10 ==> digit(d) as int == 'a' as int + d - 10,
{
}

/// A number below ten is its digit; another one is the number without its last
/// digit, with that digit behind it. None starts with a zero but zero itself.
pub proof fn law_decimal(n: nat, d: nat)
    requires
        d < 10,
    ensures
        decimal(d) == seq![digit(d)],
        n > 0 ==> decimal(10 * n + d) == decimal(n) + seq![digit(d)],
        decimal(n).len() > 0,
        n > 0 ==> decimal(n)[0] != '0',
    decreases n,
{
    if n > 0 {
        assert((10 * n + d) / 10 == n && (10 * n + d) % 10 == d);
        assert(decimal(10 * n + d) =~= decimal(n) + seq![digit(d)]);
    }
    if n >= 10 {
        law_decimal(n / 10, n % 10);
    }
}

/// Hexadecimal digits are as many as were asked for: none, or those of the
/// number without its last digit, with that digit behind them.
pub proof fn law_hex(n: nat, d: nat, width: nat)
    requires
        d < 16,
    ensures
        hex(n, width).len() == width,
        hex(16 * n + d, width + 1) == hex(n, width) + seq![digit(d)],
    decreases width,
{
    assert((16 * n + d) / 16 == n && (16 * n + d) % 16 == d);
    assert(hex(16 * n + d, width + 1) =~= hex(n, width) + seq![digit(d)]);
    if width > 0 {
        law_hex(n / 16, n % 16, (width - 1) as nat);
    }
}

/// Each byte is shown by its high digit and behind it its low digit, in the
/// order of the bytes.
pub proof fn law_hex_of(bytes: Seq<u8>)
    ensures
        hex_of(bytes).len() == 2 * bytes.len(),
        forall|i: int|
            0 <= i < bytes.len() ==> hex_of(bytes)[2 * i] == digit(
                (#[trigger] bytes[i] / 16) as nat,
            ) && hex_of(bytes)[2 * i + 1] == digit((bytes[i] % 16) as nat),
    decreases bytes.len(),
{
    lemma_hex_of_len(bytes);
    if bytes.len() > 0 {
        let shorter = bytes.drop_last();
        let last = bytes.len() - 1;
        law_hex_of(shorter);
        lemma_hex_of_len(shorter);
        reveal_with_fuel(hex, 3);
        assert forall|i: int| 0 <= i < bytes.len() implies hex_of(bytes)[2 * i] == digit(
            (#[trigger] bytes[i] / 16) as nat,
        ) && hex_of(bytes)[2 * i + 1] == digit((bytes[i] % 16) as nat) by {
            if i < last {
                assert(shorter[i] == bytes[i]);
            }
        }
    }
}

} // verus!
