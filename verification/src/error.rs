//! The error taxonomy: POSIX-shaped error numbers and the error value that
//! carries one together with the place it was raised.

use vstd::prelude::*;
use vstd::string::StringExecFns;

verus! {

/// POSIX errno.
#[derive(Clone, Copy, Debug, PartialEq, Eq, Structural)]
#[allow(clippy::upper_case_acronyms)]
pub enum HvErrorNum {
    EPERM,
    ENOENT,
    EIO,
    E2BIG,
    ENOMEM,
    EFAULT,
    EBUSY,
    EEXIST,
    ENODEV,
    EINVAL,
    ERANGE,
    ENOSYS,
}

pub struct HvError {
    pub num: HvErrorNum,
    pub loc_line: u32,
    pub loc_col: u32,
    pub loc_file: &'static str,
    pub msg: Option<String>,
}

impl HvErrorNum {
    /// The POSIX number of the error.
    pub open spec fn errno(self) -> int {
        match self {
            HvErrorNum::EPERM => 1,
            HvErrorNum::ENOENT => 2,
            HvErrorNum::EIO => 5,
            HvErrorNum::E2BIG => 7,
            HvErrorNum::ENOMEM => 12,
            HvErrorNum::EFAULT => 14,
            HvErrorNum::EBUSY => 16,
            HvErrorNum::EEXIST => 17,
            HvErrorNum::ENODEV => 19,
            HvErrorNum::EINVAL => 22,
            HvErrorNum::ERANGE => 34,
            HvErrorNum::ENOSYS => 38,
        }
    }

    /// The text that describes the error.
    pub open spec fn message(self) -> Seq<char> {
        match self {
            HvErrorNum::EPERM => "Operation not permitted"@,
            HvErrorNum::ENOENT => "No such file or directory"@,
            HvErrorNum::EIO => "I/O error"@,
            HvErrorNum::E2BIG => "Argument list too long"@,
            HvErrorNum::ENOMEM => "Out of memory"@,
            HvErrorNum::EFAULT => "Bad address"@,
            HvErrorNum::EBUSY => "Device or resource busy"@,
            HvErrorNum::EEXIST => "File exists"@,
            HvErrorNum::ENODEV => "No such device"@,
            HvErrorNum::EINVAL => "Invalid argument"@,
            HvErrorNum::ERANGE => "Math result not representable"@,
            HvErrorNum::ENOSYS => "Function not implemented"@,
        }
    }

    /// The POSIX number of the error, as the machine integer that callers
    /// hand across the hypercall boundary.
    pub fn number(&self) -> (r: u32)
        ensures
            r == self.errno(),
    {
        match *self {
            HvErrorNum::EPERM => 1,
            HvErrorNum::ENOENT => 2,
            HvErrorNum::EIO => 5,
            HvErrorNum::E2BIG => 7,
            HvErrorNum::ENOMEM => 12,
            HvErrorNum::EFAULT => 14,
            HvErrorNum::EBUSY => 16,
            HvErrorNum::EEXIST => 17,
            HvErrorNum::ENODEV => 19,
            HvErrorNum::EINVAL => 22,
            HvErrorNum::ERANGE => 34,
            HvErrorNum::ENOSYS => 38,
        }
    }

    pub fn as_str(&self) -> (r: &'static str)
        ensures
            r@ == self.message(),
    {
        match *self {
            HvErrorNum::EPERM => "Operation not permitted",
            HvErrorNum::ENOENT => "No such file or directory",
            HvErrorNum::EIO => "I/O error",
            HvErrorNum::E2BIG => "Argument list too long",
            HvErrorNum::ENOMEM => "Out of memory",
            HvErrorNum::EFAULT => "Bad address",
            HvErrorNum::EBUSY => "Device or resource busy",
            HvErrorNum::EEXIST => "File exists",
            HvErrorNum::ENODEV => "No such device",
            HvErrorNum::EINVAL => "Invalid argument",
            HvErrorNum::ERANGE => "Math result not representable",
            HvErrorNum::ENOSYS => "Function not implemented",
        }
    }
}

impl HvError {
    pub fn new(
        num: HvErrorNum,
        loc_file: &'static str,
        loc_line: u32,
        loc_col: u32,
        msg: Option<String>,
    ) -> (e: Self)
        ensures
            e.num == num,
            e.loc_file == loc_file,
            e.loc_line == loc_line,
            e.loc_col == loc_col,
            e.msg == msg,
    {
        Self { num, loc_file, loc_line, loc_col, msg }
    }

    /// The negative code that a hypercall returns for this error.
    pub fn code(&self) -> (r: isize)
        ensures
            r == -self.num.errno(),
    {
        let n: u32 = self.num.number();
        -(n as isize)
    }
}


/// The character of a decimal digit.
pub open spec fn digit_char(d: nat) -> char {
    if d == 0 {
        '0'
    } else if d == 1 {
        '1'
    } else if d == 2 {
        '2'
    } else if d == 3 {
        '3'
    } else if d == 4 {
        '4'
    } else if d == 5 {
        '5'
    } else if d == 6 {
        '6'
    } else if d == 7 {
        '7'
    } else if d == 8 {
        '8'
    } else {
        '9'
    }
}

/// A number in decimal, most significant digit first, without leading
/// zeros.
pub open spec fn spec_decimal(n: nat) -> Seq<char>
    decreases n,
{
    if n < 10 {
        seq![digit_char(n)]
    } else {
        spec_decimal(n / 10).push(digit_char(n % 10))
    }
}

fn digit_str(d: u32) -> (r: &'static str)
    requires
        d < 10,
    ensures
        r@ == seq![digit_char(d as nat)],
{
    proof {
        reveal_strlit("0");
        reveal_strlit("1");
        reveal_strlit("2");
        reveal_strlit("3");
        reveal_strlit("4");
        reveal_strlit("5");
        reveal_strlit("6");
        reveal_strlit("7");
        reveal_strlit("8");
        reveal_strlit("9");
    }
    let r = if d == 0 {
        "0"
    } else if d == 1 {
        "1"
    } else if d == 2 {
        "2"
    } else if d == 3 {
        "3"
    } else if d == 4 {
        "4"
    } else if d == 5 {
        "5"
    } else if d == 6 {
        "6"
    } else if d == 7 {
        "7"
    } else if d == 8 {
        "8"
    } else {
        "9"
    };
    proof {
        assert(r@ =~= seq![digit_char(d as nat)]);
    }
    r
}

/// A number in decimal.
pub fn decimal(n: u32) -> (r: String)
    ensures
        r@ == spec_decimal(n as nat),
    decreases n,
{
    if n < 10 {
        String::from_str(digit_str(n))
    } else {
        let mut s = decimal(n / 10);
        s.append(digit_str(n % 10));
        proof {
            assert(s@ =~= spec_decimal(n as nat));
        }
        s
    }
}

impl HvError {
    /// The report of an error: where it was raised, what it is, and what
    /// was said about it.
    pub open spec fn spec_report(&self) -> Seq<char> {
        "["@ + self.loc_file@ + ":"@ + spec_decimal(self.loc_line as nat) + ":"@ + spec_decimal(
            self.loc_col as nat,
        ) + "] "@ + self.num.message() + match self.msg {
            Some(msg) => ": "@ + msg@,
            None => Seq::empty(),
        }
    }

    /// The report of the error, as `[file:line:column] text`, followed by
    /// `: message` where the error carries one.
    pub fn report(&self) -> (r: String)
        ensures
            r@ == self.spec_report(),
    {
        let mut s = String::from_str("[");
        s.append(self.loc_file);
        s.append(":");
        let line = decimal(self.loc_line);
        s.append(line.as_str());
        s.append(":");
        let col = decimal(self.loc_col);
        s.append(col.as_str());
        s.append("] ");
        s.append(self.num.as_str());
        match &self.msg {
            Some(msg) => {
                s.append(": ");
                s.append(msg.as_str());
                proof {
                    assert(s@ =~= self.spec_report());
                }
            },
            None => {
                proof {
                    assert(s@ =~= self.spec_report());
                }
            },
        }
        s
    }
}

} // verus!
