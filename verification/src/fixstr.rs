//! The application protocol's fixed string fields: exactly 33 bytes of
//! string data followed by a null terminator, with anything after the
//! terminator ignored. Only the ASCII range has been observed on the
//! wire; decoding accepts any valid UTF-8 to keep things simple.

use vstd::prelude::*;
use vstd::string::StringSliceAdditionalSpecFns;
use vstd::utf8::{decode_utf8, valid_utf8};

verus! {

/// Why a fixed string field could not be read or written.
#[derive(Clone, Copy, Debug, PartialEq, Eq, Structural)]
pub enum StrError {
    /// The field extends past the end of the data.
    Truncated,
    /// No null terminator inside the 33-byte field.
    NoTerminator,
    /// The bytes before the terminator are not valid UTF-8.
    NotUtf8,
    /// The string to write needs more than 32 bytes.
    TooLong,
}

/// The index of the first zero byte, or the length when there is none.
pub open spec fn first_null(b: Seq<u8>) -> int
    decreases b.len(),
{
    if b.len() == 0 {
        0
    } else if b[0] == 0 {
        0
    } else {
        1 + first_null(b.drop_first())
    }
}

/// True when some byte is zero.
pub open spec fn has_null(b: Seq<u8>) -> bool {
    exists|i: int| 0 <= i < b.len() && b[i] == 0
}

/// `first_null` really is the first null.
pub proof fn lemma_first_null(b: Seq<u8>)
    ensures
        0 <= first_null(b) <= b.len(),
        first_null(b) < b.len() ==> b[first_null(b)] == 0,
        forall|j: int| 0 <= j < first_null(b) ==> b[j] != 0,
        has_null(b) <==> first_null(b) < b.len(),
    decreases b.len(),
{
    if b.len() > 0 && b[0] != 0 {
        lemma_first_null(b.drop_first());
        assert(forall|i: int| 0 <= i < b.drop_first().len() ==> b.drop_first()[i] == b[i + 1]);
        assert forall|j: int| 0 <= j < first_null(b) implies b[j] != 0 by {
            if j > 0 {
                assert(b.drop_first()[j - 1] != 0);
            }
        }
        if has_null(b) {
            let i = choose|i: int| 0 <= i < b.len() && b[i] == 0;
            assert(b.drop_first()[i - 1] == 0);
            assert(has_null(b.drop_first()));
        }
        if has_null(b.drop_first()) {
            let i = choose|i: int| 0 <= i < b.drop_first().len() && b.drop_first()[i] == 0;
            assert(b[i + 1] == 0);
        }
    }
}

/// Relies on `core::str::from_utf8`: it succeeds exactly on valid UTF-8
/// and yields the string those bytes encode.
#[verifier::external_body]
fn utf8_check(b: &[u8]) -> (r: Option<&str>)
    ensures
        r is Some <==> valid_utf8(b@),
        r matches Some(s) ==> s@ == decode_utf8(b@),
{
    core::str::from_utf8(b).ok()
}

/// Reading a fixed string field out of raw bytes.
pub trait ReadStr {
    /// The bytes being read from.
    spec fn spec_data(&self) -> Seq<u8>;

    /// Reads the 33-byte field starting at `pos`: the bytes before the
    /// first null terminator, decoded as UTF-8.
    fn read_fix(&self, pos: usize) -> (r: Result<String, StrError>)
        requires
            pos + 33 <= self.spec_data().len(),
        ensures
            ({
                let field = self.spec_data().subrange(pos as int, pos + 33);
                let prefix = field.take(first_null(field));
                if !has_null(field) {
                    r == Err::<String, StrError>(StrError::NoTerminator)
                } else if !valid_utf8(prefix) {
                    r == Err::<String, StrError>(StrError::NotUtf8)
                } else {
                    r matches Ok(s) && s@ == decode_utf8(prefix)
                }
            }),
    ;
}

impl ReadStr for [u8] {
    open spec fn spec_data(&self) -> Seq<u8> {
        self@
    }

    fn read_fix(&self, pos: usize) -> (r: Result<String, StrError>) {
        let total = self.len();
        let ghost field = self@.subrange(pos as int, pos + 33);
        proof {
            lemma_first_null(field);
        }
        let mut nullpos: usize = 0;
        let mut found = false;
        let mut i: usize = 0;
        while i < 33
            invariant
                i <= 33,
                pos + 33 <= self@.len(),
                self@.len() <= usize::MAX,
                field == self@.subrange(pos as int, pos + 33),
                !found ==> forall|j: int| 0 <= j < i ==> field[j] != 0,
                found ==> nullpos < i <= 33 && field[nullpos as int] == 0 && (forall|j: int|
                    0 <= j < nullpos ==> field[j] != 0),
            decreases 33 - i,
        {
            if !found && self[pos + i] == 0 {
                found = true;
                nullpos = i;
            }
            i = i + 1;
        }
        if !found {
            proof {
                assert(!has_null(field));
            }
            return Err(StrError::NoTerminator);
        }
        proof {
            assert(has_null(field)) by {
                assert(field[nullpos as int] == 0);
            }
            assert(first_null(field) == nullpos) by {
                lemma_first_null(field);
                if first_null(field) < nullpos {
                    assert(field[first_null(field)] != 0);
                }
            }
        }
        let mut prefix: Vec<u8> = Vec::new();
        let mut j: usize = 0;
        proof {
            assert(prefix@ =~= field.take(0));
        }
        while j < nullpos
            invariant
                j <= nullpos,
                pos + 33 <= self@.len(),
                self@.len() <= usize::MAX,
                nullpos < 33,
                field == self@.subrange(pos as int, pos + 33),
                prefix@ == field.take(j as int),
            decreases nullpos - j,
        {
            prefix.push(self[pos + j]);
            proof {
                assert(field.take(j as int).push(field[j as int]) =~= field.take(j as int + 1));
            }
            j = j + 1;
        }
        match utf8_check(prefix.as_slice()) {
            None => Err(StrError::NotUtf8),
            Some(s) => Ok(s.to_owned()),
        }
    }
}

/// Writing a fixed string field into a byte sink.
pub trait WriteStr {
    /// The bytes written so far.
    spec fn spec_data(&self) -> Seq<u8>;

    /// Appends one 33-byte field: the string's UTF-8 bytes padded with
    /// zeros. Refused when the string needs more than 32 bytes, leaving
    /// the sink untouched.
    fn write_fix(&mut self, s: &str) -> (r: Result<(), StrError>)
        ensures
            s.spec_bytes().len() > 32 ==> r == Err::<(), StrError>(StrError::TooLong)
                && final(self).spec_data() == old(self).spec_data(),
            s.spec_bytes().len() <= 32 ==> r is Ok && final(self).spec_data() == old(
                self,
            ).spec_data() + s.spec_bytes() + Seq::new((33 - s.spec_bytes().len()) as nat, |i: int| 0u8),
    ;
}

impl WriteStr for Vec<u8> {
    open spec fn spec_data(&self) -> Seq<u8> {
        self@
    }

    fn write_fix(&mut self, s: &str) -> (r: Result<(), StrError>) {
        let bytes = s.as_bytes();
        if bytes.len() > 32 {
            return Err(StrError::TooLong);
        }
        let ghost start = self@;
        let mut i: usize = 0;
        proof {
            assert(self@ =~= start + s.spec_bytes().take(0));
        }
        while i < bytes.len()
            invariant
                i <= bytes@.len(),
                bytes@ == s.spec_bytes(),
                bytes@.len() <= 32,
                self@ == start + bytes@.take(i as int),
            decreases bytes@.len() - i,
        {
            self.push(bytes[i]);
            proof {
                assert((start + bytes@.take(i as int)).push(bytes@[i as int]) =~= start
                    + bytes@.take(i as int + 1));
            }
            i = i + 1;
        }
        proof {
            assert(bytes@.take(bytes@.len() as int) =~= bytes@);
        }
        let pad = 33 - bytes.len();
        let mut k: usize = 0;
        proof {
            assert(self@ =~= start + bytes@ + Seq::new(0, |t: int| 0u8));
        }
        while k < pad
            invariant
                k <= pad,
                pad == 33 - bytes@.len(),
                bytes@ == s.spec_bytes(),
                self@ == start + bytes@ + Seq::new(k as nat, |t: int| 0u8),
            decreases pad - k,
        {
            self.push(0);
            proof {
                assert((start + bytes@ + Seq::new(k as nat, |t: int| 0u8)).push(0u8) =~= start
                    + bytes@ + Seq::new(k as nat + 1, |t: int| 0u8));
            }
            k = k + 1;
        }
        Ok(())
    }
}

} // verus!
