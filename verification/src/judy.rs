//! The error record and error numbers of the Judy array interface.

use vstd::prelude::*;

verus! {

/// A machine word of the Judy interface.
#[allow(non_camel_case_types)]
pub type Word_t = u64;

/// An error number of the Judy interface.
#[allow(non_camel_case_types)]
pub type JU_Errno_t = i32;

pub const JU_ERRNO_NONE: JU_Errno_t = 0;

pub const JU_ERRNO_FULL: JU_Errno_t = 1;

pub const JU_ERRNO_NFMAX: JU_Errno_t = 1;

pub const JU_ERRNO_NOMEM: JU_Errno_t = 2;

pub const JU_ERRNO_NULLPPARRAY: JU_Errno_t = 3;

pub const JU_ERRNO_NONNULLPARRAY: JU_Errno_t = 10;

pub const JU_ERRNO_NULLPINDEX: JU_Errno_t = 4;

pub const JU_ERRNO_NULLPVALUE: JU_Errno_t = 11;

pub const JU_ERRNO_NOTJUDY1: JU_Errno_t = 5;

pub const JU_ERRNO_NOTJUDYL: JU_Errno_t = 6;

pub const JU_ERRNO_NOTJUDYSL: JU_Errno_t = 7;

pub const JU_ERRNO_UNSORTED: JU_Errno_t = 12;

pub const JU_ERRNO_OVERRUN: JU_Errno_t = 8;

pub const JU_ERRNO_CORRUPT: JU_Errno_t = 9;

/// The record in which a Judy call reports an error.
#[allow(non_camel_case_types)]
#[allow(non_snake_case)]
pub struct JError_t {
    pub je_Errno: JU_Errno_t,
    pub je_ErrID: i32,
    pub je_reserved: [Word_t; 4],
}

impl JError_t {
    /// A record that reports no error.
    pub fn new() -> (e: JError_t)
        ensures
            e.je_Errno == JU_ERRNO_NONE,
            e.je_ErrID == 0,
            e.je_reserved@ == seq![0u64, 0u64, 0u64, 0u64],
    {
        let e = JError_t { je_Errno: JU_ERRNO_NONE, je_ErrID: 0, je_reserved: [0, 0, 0, 0] };
        assert(e.je_reserved@ =~= seq![0u64, 0u64, 0u64, 0u64]);
        e
    }
}

} // verus!
