//! The fuzzing mode: which side of the exchange is mutated and which
//! encapsulation the rendered bytes are wrapped in. The mode is passed
//! explicitly wherever rendering or a reporting hook depends on it.

use vstd::prelude::*;
use vstd::string::StringSliceAdditionalSpecFns;

verus! {

/// The campaign's target protocol and direction.
#[derive(Clone, Copy, Debug, PartialEq, Eq, Structural)]
pub enum Mode {
    Request,
    Response,
    SCGI,
    FastCGI,
    AJP,
    UWSGI,
}

impl Mode {
    /// The direction-mask bit of this mode, matched against the mask a
    /// reporting hook passes.
    pub open spec fn spec_mask(self) -> i32 {
        match self {
            Mode::Request => 1,
            Mode::Response => 2,
            Mode::SCGI => 4,
            Mode::FastCGI => 8,
            Mode::AJP => 16,
            Mode::UWSGI => 32,
        }
    }

    /// The direction-mask bit of this mode.
    pub fn mask(&self) -> (r: i32)
        ensures
            r == self.spec_mask(),
    {
        match self {
            Mode::Request => 1,
            Mode::Response => 2,
            Mode::SCGI => 4,
            Mode::FastCGI => 8,
            Mode::AJP => 16,
            Mode::UWSGI => 32,
        }
    }

    /// The lower-case name of this mode, as bytes.
    pub open spec fn spec_name(self) -> Seq<u8> {
        match self {
            Mode::Request => seq![114u8, 101u8, 113u8, 117u8, 101u8, 115u8, 116u8],
            Mode::Response => seq![114u8, 101u8, 115u8, 112u8, 111u8, 110u8, 115u8, 101u8],
            Mode::SCGI => seq![115u8, 99u8, 103u8, 105u8],
            Mode::FastCGI => seq![102u8, 97u8, 115u8, 116u8, 99u8, 103u8, 105u8],
            Mode::AJP => seq![97u8, 106u8, 112u8],
            Mode::UWSGI => seq![117u8, 119u8, 115u8, 103u8, 105u8],
        }
    }

    /// The lower-case name of this mode, as bytes.
    pub fn name_bytes(&self) -> (r: Vec<u8>)
        ensures
            r@ == self.spec_name(),
    {
        let mut v: Vec<u8> = Vec::new();
        match self {
            Mode::Request => {
                v.push(114);
                v.push(101);
                v.push(113);
                v.push(117);
                v.push(101);
                v.push(115);
                v.push(116);
            },
            Mode::Response => {
                v.push(114);
                v.push(101);
                v.push(115);
                v.push(112);
                v.push(111);
                v.push(110);
                v.push(115);
                v.push(101);
            },
            Mode::SCGI => {
                v.push(115);
                v.push(99);
                v.push(103);
                v.push(105);
            },
            Mode::FastCGI => {
                v.push(102);
                v.push(97);
                v.push(115);
                v.push(116);
                v.push(99);
                v.push(103);
                v.push(105);
            },
            Mode::AJP => {
                v.push(97);
                v.push(106);
                v.push(112);
            },
            Mode::UWSGI => {
                v.push(117);
                v.push(119);
                v.push(115);
                v.push(103);
                v.push(105);
            },
        }
        proof {
            assert(v@ =~= self.spec_name());
        }
        v
    }

    /// The mode a lower-case name denotes, if any.
    pub open spec fn spec_of_name(b: Seq<u8>) -> Option<Mode> {
        if b == Mode::Request.spec_name() {
            Some(Mode::Request)
        } else if b == Mode::Response.spec_name() {
            Some(Mode::Response)
        } else if b == Mode::SCGI.spec_name() {
            Some(Mode::SCGI)
        } else if b == Mode::FastCGI.spec_name() {
            Some(Mode::FastCGI)
        } else if b == Mode::AJP.spec_name() {
            Some(Mode::AJP)
        } else if b == Mode::UWSGI.spec_name() {
            Some(Mode::UWSGI)
        } else {
            None
        }
    }

    /// Parse a mode name. Only the six lower-case names are accepted;
    /// anything else is rejected by the caller's precondition.
    pub fn from_string(mode: &str) -> (r: Mode)
        requires
            Mode::spec_of_name(mode.spec_bytes()) is Some,
        ensures
            Some(r) == Mode::spec_of_name(mode.spec_bytes()),
    {
        let b = mode.as_bytes();
        if bytes_eq(b, Mode::Request.name_bytes().as_slice()) {
            Mode::Request
        } else if bytes_eq(b, Mode::Response.name_bytes().as_slice()) {
            Mode::Response
        } else if bytes_eq(b, Mode::SCGI.name_bytes().as_slice()) {
            Mode::SCGI
        } else if bytes_eq(b, Mode::FastCGI.name_bytes().as_slice()) {
            Mode::FastCGI
        } else if bytes_eq(b, Mode::AJP.name_bytes().as_slice()) {
            Mode::AJP
        } else {
            Mode::UWSGI
        }
    }
}

/// Byte-for-byte equality of two byte strings.
pub fn bytes_eq(a: &[u8], b: &[u8]) -> (r: bool)
    ensures
        r == (a@ == b@),
{
    if a.len() != b.len() {
        proof {
            assert(a@.len() != b@.len());
        }
        return false;
    }
    let n = a.len();
    let mut i: usize = 0;
    while i < n
        invariant
            n == a@.len(),
            n == b@.len(),
            0 <= i <= n,
            forall|j: int| 0 <= j < i ==> a@[j] == b@[j],
        decreases n - i,
    {
        if a[i] != b[i] {
            return false;
        }
        i = i + 1;
    }
    proof {
        assert(a@ =~= b@);
    }
    true
}

} // verus!
