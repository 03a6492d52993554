//! Why an image, or a request against one, is refused.
//!
//! A failure of the device underneath is not listed here: whoever performs the
//! device operations sees it first and reports it in its own terms.
use vstd::prelude::*;
use vstd::string::*;

verus! {

/// Why an image, or a request against one, is refused.
#[derive(Debug)]
pub enum Error {
    /// File-identifier signature ("vhdxfile") is missing or wrong.
    NotVhdx,
    /// Header signature ("head") missing on both header slots, or both
    /// failed CRC validation.
    NoValidHeader,
    /// Region-table signature ("regi") missing or both copies invalid.
    NoValidRegionTable,
    /// The metadata region does not hold a usable metadata table.
    BadMetadata(&'static str),
    /// CRC-32C mismatch.
    BadChecksum { expected: u32, found: u32, what: &'static str },
    /// Header field combination is internally inconsistent.
    Corrupt(&'static str),
    /// A feature that is not handled.
    Unsupported(&'static str),
    /// Access past the virtual disk end.
    OutOfBounds { offset: u64, len: u64, size: u64 },
    /// A write was asked of something that does not take writes.
    ReadOnly,
}

/// Result of an operation that can refuse an image or a request.
pub type Result<T> = core::result::Result<T, Error>;

/// The digit `d` as it is written in bases up to sixteen.
pub open spec fn digit(d: int) -> char {
    if d < 10 {
        (d + '0' as int) as char
    } else {
        (d - 10 + 'a' as int) as char
    }
}

/// `n` written in base `base`, most significant digit first, without leading zeros.
pub open spec fn numeral(n: nat, base: nat) -> Seq<char>
    decreases n,
{
    if base < 2 || n < base {
        seq![digit(n as int)]
    } else {
        proof {
            assert(n / base < n) by (nonlinear_arith)
                requires
                    base >= 2,
                    n >= base,
            ;
        }
        numeral(n / base, base).push(digit((n % base) as int))
    }
}

impl Error {
    /// The words that describe the refusal.
    pub open spec fn text(self) -> Seq<char> {
        match self {
            Error::NotVhdx => "not a VHDX image (file-identifier mismatch)"@,
            Error::NoValidHeader => "no valid VHDX header found in either slot"@,
            Error::NoValidRegionTable => "no valid VHDX region table found"@,
            Error::BadMetadata(s) => "bad metadata region: "@ + s@,
            Error::BadChecksum { expected, found, what } => what@ + " CRC-32C mismatch: expected 0x"@
                + numeral(expected as nat, 16) + ", found 0x"@ + numeral(found as nat, 16),
            Error::Corrupt(s) => "corrupt VHDX: "@ + s@,
            Error::Unsupported(s) => "unsupported VHDX feature: "@ + s@,
            Error::OutOfBounds { offset, len, size } => "read ["@ + numeral(offset as nat, 10)
                + ", "@ + numeral(offset as nat, 10) + "+"@ + numeral(len as nat, 10)
                + ") past virtual size "@ + numeral(size as nat, 10),
            Error::ReadOnly => "image is read-only"@,
        }
    }

    /// Describe the refusal in words.
    pub fn message(&self) -> (s: String)
        ensures
            s@ == self.text(),
    {
        let mut s: String = String::new();
        match self {
            Error::NotVhdx => s.append("not a VHDX image (file-identifier mismatch)"),
            Error::NoValidHeader => s.append("no valid VHDX header found in either slot"),
            Error::NoValidRegionTable => s.append("no valid VHDX region table found"),
            Error::BadMetadata(why) => {
                s.append("bad metadata region: ");
                s.append(why);
            },
            Error::BadChecksum { expected, found, what } => {
                s.append(what);
                s.append(" CRC-32C mismatch: expected 0x");
                append_numeral(&mut s, *expected as u64, 16);
                s.append(", found 0x");
                append_numeral(&mut s, *found as u64, 16);
            },
            Error::Corrupt(why) => {
                s.append("corrupt VHDX: ");
                s.append(why);
            },
            Error::Unsupported(why) => {
                s.append("unsupported VHDX feature: ");
                s.append(why);
            },
            Error::OutOfBounds { offset, len, size } => {
                s.append("read [");
                append_numeral(&mut s, *offset, 10);
                s.append(", ");
                append_numeral(&mut s, *offset, 10);
                s.append("+");
                append_numeral(&mut s, *len, 10);
                s.append(") past virtual size ");
                append_numeral(&mut s, *size, 10);
            },
            Error::ReadOnly => s.append("image is read-only"),
        }
        assert(s@ =~= self.text());
        s
    }
}

/// Append `n`, written in base `base`, to `s`.
fn append_numeral(s: &mut String, n: u64, base: u64)
    requires
        2 <= base <= 16,
    ensures
        final(s)@ == old(s)@ + numeral(n as nat, base as nat),
    decreases n,
{
    if n >= base {
        assert(n / base < n) by (nonlinear_arith)
            requires
                base >= 2,
                n >= base,
        ;
        append_numeral(s, n / base, base);
        append_digit(s, n % base);
        assert(n as nat / base as nat == (n / base) as nat);
        assert(n as nat % base as nat == (n % base) as nat);
    } else {
        append_digit(s, n);
    }
    assert(s@ =~= old(s)@ + numeral(n as nat, base as nat));
}

/// Append the digit `d` to `s`.
fn append_digit(s: &mut String, d: u64)
    requires
        d < 16,
    ensures
        final(s)@ == old(s)@.push(digit(d as int)),
{
    let word: &str = match d {
        0 => "0",
        1 => "1",
        2 => "2",
        3 => "3",
        4 => "4",
        5 => "5",
        6 => "6",
        7 => "7",
        8 => "8",
        9 => "9",
        10 => "a",
        11 => "b",
        12 => "c",
        13 => "d",
        14 => "e",
        _ => "f",
    };
    proof {
        reveal_strlit("0");
        reveal_strlit("1");
        reveal_strlit("2");
        reveal_strlit("3");
        reveal_strlit("4");
        reveal_strlit("5");
        reveal_strlit("6");
        reveal_strlit("7");
        reveal_strlit("8");
        reveal_strlit("9");
        reveal_strlit("a");
        reveal_strlit("b");
        reveal_strlit("c");
        reveal_strlit("d");
        reveal_strlit("e");
        reveal_strlit("f");
    }
    s.append(word);
    assert(s@ =~= old(s)@.push(digit(d as int)));
}

/// The value of a digit as it is written in bases up to sixteen.
pub open spec fn digit_value(c: char) -> int {
    if '0' <= c <= '9' {
        c as int - '0' as int
    } else {
        c as int - 'a' as int + 10
    }
}

/// The number that digits stand for in base `base`, the most significant first.
pub open spec fn value_of(digits: Seq<char>, base: nat) -> int
    decreases digits.len(),
{
    if digits.len() == 0 {
        0
    } else {
        value_of(digits.drop_last(), base) * base + digit_value(digits.last())
    }
}

/// A numeral stands for its number, in digits of the base, and has no zero in front unless it is
/// the zero.
pub proof fn a_numeral_stands_for_its_number(n: nat, base: nat)
    requires
        2 <= base <= 16,
    ensures
        value_of(numeral(n, base), base) == n,
        numeral(n, base).len() > 0,
        numeral(n, base)[0] == '0' ==> n == 0,
        forall|i: int|
            0 <= i < numeral(n, base).len() ==> 0 <= digit_value(#[trigger] numeral(n, base)[i])
                < base && ('0' <= numeral(n, base)[i] <= '9' || 'a' <= numeral(n, base)[i] <= 'f'),
    decreases n,
{
    let s = numeral(n, base);
    if n < base {
        assert(s =~= seq![digit(n as int)]);
        assert(s.drop_last() =~= Seq::<char>::empty());
        reveal_with_fuel(value_of, 2);
        assert(0 * base == 0) by (nonlinear_arith);
    } else {
        let q = n / base;
        let m = n % base;
        assert(0 < q < n && 0 <= m < base && q * base + m == n) by (nonlinear_arith)
            requires
                q == n / base,
                m == n % base,
                2 <= base <= n,
        ;
        a_numeral_stands_for_its_number(q, base);
        assert(s == numeral(q, base).push(digit(m as int)));
        assert(s.drop_last() =~= numeral(q, base));
        assert(s.last() == digit(m as int));
        assert(s[0] == numeral(q, base)[0]);
        assert forall|i: int| 0 <= i < s.len() implies 0 <= digit_value(#[trigger] s[i]) < base && (
        '0' <= s[i] <= '9' || 'a' <= s[i] <= 'f') by {
            if i < s.len() - 1 {
                assert(s[i] == numeral(q, base)[i]);
            }
        }
    }
}

/// The words for a refusal say what it is and give the reason that comes with it; numbers are
/// written out, checksums in base sixteen.
pub proof fn a_refusal_is_put_into_words(e: Error, s: String)
    requires
        call_ensures(Error::message, (&e,), s),
    ensures
        call_requires(Error::message, (&e,)),
        match e {
            Error::NotVhdx => s@ == "not a VHDX image (file-identifier mismatch)"@,
            Error::NoValidHeader => s@ == "no valid VHDX header found in either slot"@,
            Error::NoValidRegionTable => s@ == "no valid VHDX region table found"@,
            Error::BadMetadata(why) => s@ == "bad metadata region: "@ + why@,
            Error::BadChecksum { expected, found, what } => exists|x: Seq<char>, y: Seq<char>|
                {
                    &&& s@ == what@ + " CRC-32C mismatch: expected 0x"@ + x + ", found 0x"@ + y
                    &&& #[trigger] value_of(x, 16) == expected
                    &&& #[trigger] value_of(y, 16) == found
                },
            Error::Corrupt(why) => s@ == "corrupt VHDX: "@ + why@,
            Error::Unsupported(why) => s@ == "unsupported VHDX feature: "@ + why@,
            Error::OutOfBounds { offset, len, size } => exists|
                x: Seq<char>,
                y: Seq<char>,
                z: Seq<char>,
            |
                {
                    &&& s@ == "read ["@ + x + ", "@ + x + "+"@ + y + ") past virtual size "@ + z
                    &&& #[trigger] value_of(x, 10) == offset
                    &&& #[trigger] value_of(y, 10) == len
                    &&& #[trigger] value_of(z, 10) == size
                },
            Error::ReadOnly => s@ == "image is read-only"@,
        },
{
    match e {
        Error::BadChecksum { expected, found, what } => {
            let x = numeral(expected as nat, 16);
            let y = numeral(found as nat, 16);
            a_numeral_stands_for_its_number(expected as nat, 16);
            a_numeral_stands_for_its_number(found as nat, 16);
            assert(value_of(x, 16) == expected && value_of(y, 16) == found);
        },
        Error::OutOfBounds { offset, len, size } => {
            let x = numeral(offset as nat, 10);
            let y = numeral(len as nat, 10);
            let z = numeral(size as nat, 10);
            a_numeral_stands_for_its_number(offset as nat, 10);
            a_numeral_stands_for_its_number(len as nat, 10);
            a_numeral_stands_for_its_number(size as nat, 10);
            assert(value_of(x, 10) == offset && value_of(y, 10) == len && value_of(z, 10) == size);
        },
        _ => {},
    }
}

} // verus!
