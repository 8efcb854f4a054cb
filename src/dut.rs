//! The compiled design under test as the library sees it: the answers of its
//! query/run/set/get interface, decoded into values and errors. Opening the
//! shared library and calling into it is left to the caller.

use crate::bits::{bits_of, bv_from_words, bv_resize, resized, word_bits, Bits, MAX_BITS};
use crate::design::Signal;
use vstd::prelude::*;

verus! {

/// Why a call into the design failed.
pub enum DutError {
    Query,
    Run,
    SetSignal(String, Bits),
    Get(String),
}

/// A design loaded from the shared library at `lib_path`.
pub struct Dut {
    pub lib_path: String,
}

/// The first `n_bits` bits of the words `w`.
pub open spec fn bits_from_words(w: Seq<u32>, n_bits: nat) -> Seq<bool> {
    resized(word_bits(w), n_bits, false)
}

impl Dut {
    /// The design at `lib_path`.
    pub fn new(lib_path: &str) -> (r: Dut)
        ensures
            r.lib_path@ == lib_path@,
    {
        Dut { lib_path: lib_path.to_owned() }
    }

    /// The signals that the design's query reported, or `Query` where the
    /// query failed.
    pub fn query(&self, reported: Option<Vec<Signal>>) -> (r: Result<Vec<Signal>, DutError>)
        ensures
            match reported {
                Some(s) => r matches Ok(x) && x == s,
                None => r matches Err(DutError::Query),
            },
    {
        match reported {
            Some(s) => Ok(s),
            None => Err(DutError::Query),
        }
    }

    /// The outcome of running for a while: the design's status (zero is
    /// success) and the time it reached.
    pub fn run(&self, status: i32, current_time: u64) -> (r: Result<u64, DutError>)
        ensures
            status == 0 ==> r == Ok::<u64, DutError>(current_time),
            status != 0 ==> r matches Err(DutError::Run),
    {
        if status == 0 {
            Ok(current_time)
        } else {
            Err(DutError::Run)
        }
    }

    /// The outcome of writing `bit_vec` onto `sig_name`, from the design's
    /// status (zero is success); the error carries the name and the value.
    pub fn set(&self, sig_name: &str, bit_vec: Bits, status: i32) -> (r: Result<(), DutError>)
        ensures
            status == 0 ==> r is Ok,
            status != 0 ==> (r matches Err(DutError::SetSignal(n, b)) && n@ == sig_name@ && bits_of(b) == bits_of(
                bit_vec,
            )),
    {
        if status == 0 {
            Ok(())
        } else {
            Err(DutError::SetSignal(sig_name.to_owned(), bit_vec))
        }
    }

    /// The value of `sig_name` from the words the design returned (none if
    /// it did not know the signal) and its width in bits.
    pub fn get(&self, sig_name: &str, words: Option<Vec<u32>>, n_bits: usize) -> (r: Result<Bits, DutError>)
        requires
            words matches Some(w) ==> n_bits <= w@.len() * 32 <= MAX_BITS,
        ensures
            match words {
                Some(w) => r matches Ok(b) && bits_of(b) == bits_from_words(w@, n_bits as nat),
                None => r matches Err(DutError::Get(n)) && n@ == sig_name@,
            },
    {
        match words {
            Some(w) => Ok(Self::bitvec_from(&w, n_bits)),
            None => Err(DutError::Get(sig_name.to_owned())),
        }
    }

    /// The first `n_bits` bits of `words`.
    pub fn bitvec_from(words: &Vec<u32>, n_bits: usize) -> (r: Bits)
        requires
            n_bits <= words@.len() * 32 <= MAX_BITS,
        ensures
            bits_of(r) == bits_from_words(words@, n_bits as nat),
    {
        let mut b = bv_from_words(words);
        bv_resize(&mut b, n_bits, false);
        b
    }
}

} // verus!
