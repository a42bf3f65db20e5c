use vstd::prelude::*;

verus! {

/// The kind of request, a 4-bit field of the header.
#[derive(Debug, Clone, Copy, PartialEq, Eq, Structural)]
pub enum OPCODE {
    QUERY,
    IQUERY,
    STATUS,
    /// Any other code, kept as it came so that it is written back unchanged.
    RESERVED(u8),
}

/// The response status, a 4-bit field of the header.
#[derive(Debug, Clone, Copy, PartialEq, Eq, Structural)]
pub enum RCODE {
    NoErr,
    FormatErr,
    ServerFail,
    NameErr,
    NotImplemented,
    Refused,
    /// Any other code, kept as it came so that it is written back unchanged.
    Reserved(u8),
}

impl OPCODE {
    /// The code this value stands for.
    pub open spec fn code(self) -> u8 {
        match self {
            OPCODE::QUERY => 0,
            OPCODE::IQUERY => 1,
            OPCODE::STATUS => 2,
            OPCODE::RESERVED(n) => n,
        }
    }

    /// The value that stands for `code`.
    pub open spec fn from_code(code: u8) -> OPCODE {
        if code == 0 {
            OPCODE::QUERY
        } else if code == 1 {
            OPCODE::IQUERY
        } else if code == 2 {
            OPCODE::STATUS
        } else {
            OPCODE::RESERVED(code)
        }
    }

    /// A catch-all holds no code that has a variant of its own, and every code
    /// fits the 4-bit field.
    pub open spec fn wf(self) -> bool {
        match self {
            OPCODE::RESERVED(n) => 3 <= n < 16,
            _ => true,
        }
    }

    pub fn deserialize(bin_code: u8) -> (r: OPCODE)
        ensures
            r == OPCODE::from_code(bin_code),
            r.code() == bin_code,
            bin_code < 16 ==> r.wf(),
    {
        match bin_code {
            0 => OPCODE::QUERY,
            1 => OPCODE::IQUERY,
            2 => OPCODE::STATUS,
            n => OPCODE::RESERVED(n),
        }
    }

    pub fn serialize(&self) -> (r: u8)
        ensures
            r == self.code(),
            self.wf() ==> r < 16 && OPCODE::from_code(r) == *self,
    {
        match self {
            OPCODE::QUERY => 0,
            OPCODE::IQUERY => 1,
            OPCODE::STATUS => 2,
            OPCODE::RESERVED(n) => *n,
        }
    }
}

impl RCODE {
    /// The code this value stands for.
    pub open spec fn code(self) -> u8 {
        match self {
            RCODE::NoErr => 0,
            RCODE::FormatErr => 1,
            RCODE::ServerFail => 2,
            RCODE::NameErr => 3,
            RCODE::NotImplemented => 4,
            RCODE::Refused => 5,
            RCODE::Reserved(n) => n,
        }
    }

    /// The value that stands for `code`.
    pub open spec fn from_code(code: u8) -> RCODE {
        if code == 0 {
            RCODE::NoErr
        } else if code == 1 {
            RCODE::FormatErr
        } else if code == 2 {
            RCODE::ServerFail
        } else if code == 3 {
            RCODE::NameErr
        } else if code == 4 {
            RCODE::NotImplemented
        } else if code == 5 {
            RCODE::Refused
        } else {
            RCODE::Reserved(code)
        }
    }

    /// A catch-all holds no code that has a variant of its own, and every code
    /// fits the 4-bit field.
    pub open spec fn wf(self) -> bool {
        match self {
            RCODE::Reserved(n) => 6 <= n < 16,
            _ => true,
        }
    }

    pub fn deserialize(bin_code: u8) -> (r: RCODE)
        ensures
            r == RCODE::from_code(bin_code),
            r.code() == bin_code,
            bin_code < 16 ==> r.wf(),
    {
        match bin_code {
            0 => RCODE::NoErr,
            1 => RCODE::FormatErr,
            2 => RCODE::ServerFail,
            3 => RCODE::NameErr,
            4 => RCODE::NotImplemented,
            5 => RCODE::Refused,
            n => RCODE::Reserved(n),
        }
    }

    pub fn serialize(&self) -> (r: u8)
        ensures
            r == self.code(),
            self.wf() ==> r < 16 && RCODE::from_code(r) == *self,
    {
        match self {
            RCODE::NoErr => 0,
            RCODE::FormatErr => 1,
            RCODE::ServerFail => 2,
            RCODE::NameErr => 3,
            RCODE::NotImplemented => 4,
            RCODE::Refused => 5,
            RCODE::Reserved(n) => *n,
        }
    }
}

} // verus!
