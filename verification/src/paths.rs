//! The names of segment files: a prefix, the seconds since the epoch in
//! decimal, and the suffix `.data`, under the data directory.

use vstd::prelude::*;
use vstd::string::{StrSliceExecFns, StringExecFns};

verus! {

/// The character of a decimal digit.
pub open spec fn digit_char(digit: nat) -> char {
    if digit == 0 {
        '0'
    } else if digit == 1 {
        '1'
    } else if digit == 2 {
        '2'
    } else if digit == 3 {
        '3'
    } else if digit == 4 {
        '4'
    } else if digit == 5 {
        '5'
    } else if digit == 6 {
        '6'
    } else if digit == 7 {
        '7'
    } else if digit == 8 {
        '8'
    } else {
        '9'
    }
}

/// A number in decimal, without leading zeros.
pub open spec fn decimal(value: nat) -> Seq<char>
    decreases value,
{
    if value < 10 {
        seq![digit_char(value)]
    } else {
        decimal(value / 10).push(digit_char(value % 10))
    }
}

/// A file name under a directory: the two joined by one `/`, unless the
/// directory is empty or ends in one.
pub open spec fn joined(dir: Seq<char>, name: Seq<char>) -> Seq<char> {
    if dir.len() == 0 {
        name
    } else if dir.last() == '/' {
        dir + name
    } else {
        dir + seq!['/'] + name
    }
}

/// The suffix of a segment file.
pub open spec fn data_suffix() -> Seq<char> {
    seq!['.', 'd', 'a', 't', 'a']
}

/// The path of the segment file with the prefix `prefix` made at `secs`.
pub open spec fn segment_path_of(dir: Seq<char>, prefix: Seq<char>, secs: u64) -> Seq<char> {
    joined(dir, prefix + decimal(secs as nat) + data_suffix())
}

fn digit_str(digit: u8) -> (text: &'static str)
    requires
        digit < 10,
    ensures
        text@ == seq![digit_char(digit as nat)],
{
    proof {
        reveal_strlit("0");
        reveal_strlit("1");
        reveal_strlit("2");
        reveal_strlit("3");
        reveal_strlit("4");
        reveal_strlit("5");
        reveal_strlit("6");
        reveal_strlit("7");
        reveal_strlit("8");
        reveal_strlit("9");
    }
    let text = if digit == 0 {
        "0"
    } else if digit == 1 {
        "1"
    } else if digit == 2 {
        "2"
    } else if digit == 3 {
        "3"
    } else if digit == 4 {
        "4"
    } else if digit == 5 {
        "5"
    } else if digit == 6 {
        "6"
    } else if digit == 7 {
        "7"
    } else if digit == 8 {
        "8"
    } else {
        "9"
    };
    assert(text@ =~= seq![digit_char(digit as nat)]);
    text
}

/// A number in decimal.
pub fn decimal_string(value: u64) -> (text: String)
    ensures
        text@ == decimal(value as nat),
    decreases value,
{
    if value < 10 {
        String::from_str(digit_str(value as u8))
    } else {
        let mut text = decimal_string(value / 10);
        text.append(digit_str((value % 10) as u8));
        text
    }
}

/// The path of a segment file under `dir`.
pub fn segment_path(dir: &str, prefix: &str, secs: u64) -> (path: String)
    ensures
        path@ == segment_path_of(dir@, prefix@, secs),
{
    proof {
        reveal_strlit(".data");
        reveal_strlit("/");
    }
    let mut name = String::from_str(prefix);
    let digits = decimal_string(secs);
    name.append(digits.as_str());
    name.append(".data");
    assert(".data"@ =~= data_suffix());
    let length: usize = dir.unicode_len();
    if length == 0 {
        assert(dir@.len() == 0);
        return name;
    }
    let mut path = String::from_str(dir);
    if dir.get_char(length - 1) != '/' {
        path.append("/");
        assert("/"@ =~= seq!['/']);
    }
    path.append(name.as_str());
    path
}

/// Whether a file name is that of a segment file: it ends in `.data` and has
/// something before it.
pub open spec fn is_segment_name(name: Seq<char>) -> bool {
    name.len() > 5 && name.subrange(name.len() - 5, name.len() as int) == data_suffix()
}

/// Whether the file named `name` is installed as a segment at start.
pub fn is_segment_file_name(name: &str) -> (segment: bool)
    ensures
        segment == is_segment_name(name@),
{
    let length: usize = name.unicode_len();
    if length <= 5 {
        return false;
    }
    let tail = name.substring_char(length - 5, length);
    proof {
        reveal_strlit(".data");
        assert(".data"@ =~= data_suffix());
    }
    let suffix: String = String::from_str(".data");
    let found: String = String::from_str(tail);
    found == suffix
}

} // verus!
