//! The general-purpose registers addressable by an instruction's 5-bit
//! register fields.

use vstd::prelude::*;

verus! {

#[allow(non_camel_case_types)]
#[derive(Copy, Clone, PartialEq, Eq, Structural, Debug)]
pub enum Reg {
    zero,
    at,
    v0,
    v1,
    a0,
    a1,
    a2,
    a3,
    t0,
    t1,
    t2,
    t3,
    t4,
    t5,
    t6,
    t7,
    t8,
    t9,
    s0,
    s1,
    s2,
    s3,
    s4,
    s5,
    s6,
    s7,
    sp,
    fp,
    ra,
}

impl Reg {
    /// The 5-bit field value that encodes this register.
    pub open spec fn spec_number(self) -> u32 {
        match self {
            Reg::zero => 0,
            Reg::at => 1,
            Reg::v0 => 2,
            Reg::v1 => 3,
            Reg::a0 => 4,
            Reg::a1 => 5,
            Reg::a2 => 6,
            Reg::a3 => 7,
            Reg::t0 => 8,
            Reg::t1 => 9,
            Reg::t2 => 10,
            Reg::t3 => 11,
            Reg::t4 => 12,
            Reg::t5 => 13,
            Reg::t6 => 14,
            Reg::t7 => 15,
            Reg::s0 => 16,
            Reg::s1 => 17,
            Reg::s2 => 18,
            Reg::s3 => 19,
            Reg::s4 => 20,
            Reg::s5 => 21,
            Reg::s6 => 22,
            Reg::s7 => 23,
            Reg::t8 => 24,
            Reg::t9 => 25,
            Reg::sp => 29,
            Reg::fp => 30,
            Reg::ra => 31,
        }
    }

    /// The register a 5-bit field value names; 26 through 28 name no
    /// register of this set.
    pub open spec fn spec_of_number(m: u32) -> Option<Reg> {
        if m == 0 {
            Some(Reg::zero)
        } else if m == 1 {
            Some(Reg::at)
        } else if m == 2 {
            Some(Reg::v0)
        } else if m == 3 {
            Some(Reg::v1)
        } else if m == 4 {
            Some(Reg::a0)
        } else if m == 5 {
            Some(Reg::a1)
        } else if m == 6 {
            Some(Reg::a2)
        } else if m == 7 {
            Some(Reg::a3)
        } else if m == 8 {
            Some(Reg::t0)
        } else if m == 9 {
            Some(Reg::t1)
        } else if m == 10 {
            Some(Reg::t2)
        } else if m == 11 {
            Some(Reg::t3)
        } else if m == 12 {
            Some(Reg::t4)
        } else if m == 13 {
            Some(Reg::t5)
        } else if m == 14 {
            Some(Reg::t6)
        } else if m == 15 {
            Some(Reg::t7)
        } else if m == 16 {
            Some(Reg::s0)
        } else if m == 17 {
            Some(Reg::s1)
        } else if m == 18 {
            Some(Reg::s2)
        } else if m == 19 {
            Some(Reg::s3)
        } else if m == 20 {
            Some(Reg::s4)
        } else if m == 21 {
            Some(Reg::s5)
        } else if m == 22 {
            Some(Reg::s6)
        } else if m == 23 {
            Some(Reg::s7)
        } else if m == 24 {
            Some(Reg::t8)
        } else if m == 25 {
            Some(Reg::t9)
        } else if m == 29 {
            Some(Reg::sp)
        } else if m == 30 {
            Some(Reg::fp)
        } else if m == 31 {
            Some(Reg::ra)
        } else {
            None
        }
    }

    pub fn number(self) -> (r: u32)
        ensures
            r == self.spec_number(),
            r < 32,
    {
        match self {
            Reg::zero => 0,
            Reg::at => 1,
            Reg::v0 => 2,
            Reg::v1 => 3,
            Reg::a0 => 4,
            Reg::a1 => 5,
            Reg::a2 => 6,
            Reg::a3 => 7,
            Reg::t0 => 8,
            Reg::t1 => 9,
            Reg::t2 => 10,
            Reg::t3 => 11,
            Reg::t4 => 12,
            Reg::t5 => 13,
            Reg::t6 => 14,
            Reg::t7 => 15,
            Reg::s0 => 16,
            Reg::s1 => 17,
            Reg::s2 => 18,
            Reg::s3 => 19,
            Reg::s4 => 20,
            Reg::s5 => 21,
            Reg::s6 => 22,
            Reg::s7 => 23,
            Reg::t8 => 24,
            Reg::t9 => 25,
            Reg::sp => 29,
            Reg::fp => 30,
            Reg::ra => 31,
        }
    }

    /// Only the low five bits of `n` are read, as in a register field.
    pub fn from_number(n: u32) -> (r: Option<Reg>)
        ensures
            r == Reg::spec_of_number(n % 32),
    {
        let m = n % 32;
        if m == 0 {
            Some(Reg::zero)
        } else if m == 1 {
            Some(Reg::at)
        } else if m == 2 {
            Some(Reg::v0)
        } else if m == 3 {
            Some(Reg::v1)
        } else if m == 4 {
            Some(Reg::a0)
        } else if m == 5 {
            Some(Reg::a1)
        } else if m == 6 {
            Some(Reg::a2)
        } else if m == 7 {
            Some(Reg::a3)
        } else if m == 8 {
            Some(Reg::t0)
        } else if m == 9 {
            Some(Reg::t1)
        } else if m == 10 {
            Some(Reg::t2)
        } else if m == 11 {
            Some(Reg::t3)
        } else if m == 12 {
            Some(Reg::t4)
        } else if m == 13 {
            Some(Reg::t5)
        } else if m == 14 {
            Some(Reg::t6)
        } else if m == 15 {
            Some(Reg::t7)
        } else if m == 16 {
            Some(Reg::s0)
        } else if m == 17 {
            Some(Reg::s1)
        } else if m == 18 {
            Some(Reg::s2)
        } else if m == 19 {
            Some(Reg::s3)
        } else if m == 20 {
            Some(Reg::s4)
        } else if m == 21 {
            Some(Reg::s5)
        } else if m == 22 {
            Some(Reg::s6)
        } else if m == 23 {
            Some(Reg::s7)
        } else if m == 24 {
            Some(Reg::t8)
        } else if m == 25 {
            Some(Reg::t9)
        } else if m == 29 {
            Some(Reg::sp)
        } else if m == 30 {
            Some(Reg::fp)
        } else if m == 31 {
            Some(Reg::ra)
        } else {
            None
        }
    }
}

/// A register's field value names that register back.
pub proof fn lemma_reg_round_trip(r: Reg)
    ensures
        Reg::spec_of_number(r.spec_number()) == Some(r),
{
}

} // verus!
