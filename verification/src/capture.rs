use vstd::prelude::*;
use vstd::string::StrSliceExecFns;
use vstd::string::StringExecFns;

verus! {

/// Command-line arguments of the capture tool.
#[derive(Debug, Clone, PartialEq, Eq)]
pub struct Args {
    /// How many channels to capture.
    pub channels: u8,
    /// The file prefix to use for the captured files.
    pub prefix: String,
    /// How long to capture for in seconds.
    pub duration: u64,
}

/// Is `c` a decimal digit?
pub open spec fn is_digit(c: char) -> bool {
    48 <= c as int && c as int <= 57
}

/// The value of a decimal digit.
pub open spec fn digit_val(c: char) -> nat {
    (c as int - 48) as nat
}

/// Is every character of `s` a decimal digit?
pub open spec fn all_digits(s: Seq<char>) -> bool {
    forall|i: int| 0 <= i < s.len() ==> is_digit(s[i])
}

/// The number a decimal digit string denotes, most significant digit first.
pub open spec fn dec_val(s: Seq<char>) -> nat
    decreases s.len(),
{
    if s.len() == 0 {
        0
    } else {
        10 * dec_val(s.drop_last()) + digit_val(s.last())
    }
}

/// The `u8` a string denotes: an optional leading plus sign, then at least
/// one decimal digit, denoting a value of at most 255.
pub open spec fn parsed_u8(s: Seq<char>) -> Option<u8> {
    let d = if s.len() > 0 && s[0] == '+' {
        s.skip(1)
    } else {
        s
    };
    if d.len() > 0 && all_digits(d) && dec_val(d) <= 255 {
        Some(dec_val(d) as u8)
    } else {
        None
    }
}

/// A longer digit string denotes at least as much.
proof fn lemma_dec_val_mono(d: Seq<char>, j: int)
    requires
        0 <= j <= d.len(),
    ensures
        dec_val(d.take(j)) <= dec_val(d),
    decreases d.len() - j,
{
    if j < d.len() {
        assert(d.take(j + 1).drop_last() =~= d.take(j));
        lemma_dec_val_mono(d, j + 1);
    } else {
        assert(d.take(j) =~= d);
    }
}

/// Check a channel-count argument: the number of channels if the string
/// denotes one and it lies between 1 and 10, otherwise the reason it is
/// refused.
pub fn channels_in_range(s: &str) -> (r: Result<u8, String>)
    ensures
        match parsed_u8(s@) {
            Some(n) => {
                if n == 0 {
                    r matches Err(m) && m@ == "must be greater than 0"@
                } else if n > 10 {
                    r matches Err(m) && m@ == "DECT only supports up to 10 channels"@
                } else {
                    r == Ok::<u8, String>(n)
                }
            },
            None => r matches Err(m) && m@ == "Invalid channel number"@,
        },
{
    let n_chars = s.unicode_len();
    let start: usize = if n_chars > 0 && s.get_char(0) == '+' {
        1
    } else {
        0
    };
    let ghost d = if s@.len() > 0 && s@[0] == '+' {
        s@.skip(1)
    } else {
        s@
    };
    proof {
        if start == 0 {
            assert(s@.skip(0) =~= s@);
        }
        assert(d == s@.skip(start as int));
    }
    if n_chars == start {
        return Err(String::from_str("Invalid channel number"));
    }
    let mut val: u16 = 0;
    let mut i: usize = start;
    proof {
        assert(d.take(0) =~= Seq::<char>::empty());
    }
    while i < n_chars
        invariant
            start <= i <= n_chars,
            n_chars == s@.len(),
            start < n_chars,
            start == 0 || start == 1,
            d == s@.skip(start as int),
            d == (if s@.len() > 0 && s@[0] == '+' {
                s@.skip(1)
            } else {
                s@
            }),
            all_digits(d.take(i - start)),
            val == dec_val(d.take(i - start)),
            val <= 255,
        decreases n_chars - i,
    {
        let c = s.get_char(i);
        let cv = c as u32;
        proof {
            assert(d[i - start] == s@[i as int]);
        }
        if cv < 48 || cv > 57 {
            proof {
                assert(!is_digit(d[i - start]));
                assert(!all_digits(d));
            }
            return Err(String::from_str("Invalid channel number"));
        }
        let dv: u16 = (cv - 48) as u16;
        proof {
            assert(d.take(i - start + 1).drop_last() =~= d.take(i - start));
            assert(d.take(i - start + 1).last() == d[i - start]);
            assert(digit_val(d[i - start]) == dv);
        }
        val = val * 10 + dv;
        if val > 255 {
            proof {
                lemma_dec_val_mono(d, i - start + 1);
                assert(dec_val(d) > 255);
            }
            return Err(String::from_str("Invalid channel number"));
        }
        i += 1;
    }
    proof {
        assert(d.take(n_chars - start) =~= d);
        assert(parsed_u8(s@) == Some(val as u8));
    }
    let v = val as u8;
    if v == 0 {
        Err(String::from_str("must be greater than 0"))
    } else if v > 10 {
        Err(String::from_str("DECT only supports up to 10 channels"))
    } else {
        Ok(v)
    }
}

} // verus!
