//! Device identifiers: `host`, or a backend name and an id joined by a colon.
use vstd::prelude::*;
use vstd::string::*;
use vstd::utf8::{encode_utf8, is_char_boundary};

verus! {

/// The tool through which a device is reached.
#[derive(Clone, Copy, Debug, PartialEq, Eq, Structural)]
pub enum Backend {
    Adb,
    Imd,
    Host,
}

/// Why a device identifier was refused.
#[derive(Clone, Copy, Debug, PartialEq, Eq, Structural)]
pub enum DeviceError {
    /// The part before the colon names no known backend.
    UnsupportedBackend,
    /// The identifier is neither `host` nor of the form `backend:id`.
    InvalidIdentifier,
}

/// A device: the backend that reaches it and its id within that backend.
#[derive(Clone, Debug)]
pub struct Device {
    backend: Backend,
    id: String,
}

impl View for Device {
    type V = (Backend, Seq<char>);

    closed spec fn view(&self) -> (Backend, Seq<char>) {
        (self.backend, self.id@)
    }
}

/// The bytes of `host`.
pub open spec fn host_bytes() -> Seq<u8> {
    seq![0x68, 0x6f, 0x73, 0x74]
}

/// The bytes of `adb`.
pub open spec fn adb_bytes() -> Seq<u8> {
    seq![0x61, 0x64, 0x62]
}

/// The bytes of `imd`.
pub open spec fn imd_bytes() -> Seq<u8> {
    seq![0x69, 0x6d, 0x64]
}

/// The index of the first colon in `b` at or after `i`, or the length of `b`.
pub open spec fn find_colon(b: Seq<u8>, i: int) -> int
    decreases b.len() - i,
{
    if i < 0 || i >= b.len() {
        b.len() as int
    } else if b[i] == 0x3a {
        i
    } else {
        find_colon(b, i + 1)
    }
}

/// The backend and the id bytes named by the identifier `b`, or why there are none.
pub open spec fn parse_device(b: Seq<u8>) -> Result<(Backend, Seq<u8>), DeviceError> {
    if b == host_bytes() {
        Ok((Backend::Host, b))
    } else {
        let i = find_colon(b, 0);
        if i == b.len() || !is_char_boundary(b, i + 1) {
            Err(DeviceError::InvalidIdentifier)
        } else if b.subrange(0, i) == adb_bytes() {
            Ok((Backend::Adb, b.subrange(i + 1, b.len() as int)))
        } else if b.subrange(0, i) == imd_bytes() {
            Ok((Backend::Imd, b.subrange(i + 1, b.len() as int)))
        } else {
            Err(DeviceError::UnsupportedBackend)
        }
    }
}

/// Finds the first colon in `b`.
fn find_colon_exec(b: &[u8]) -> (r: usize)
    ensures
        r == find_colon(b@, 0),
        r <= b@.len(),
{
    let mut i: usize = 0;
    while i < b.len()
        invariant
            i <= b@.len(),
            find_colon(b@, i as int) == find_colon(b@, 0),
        decreases b@.len() - i,
    {
        if b[i] == 0x3a {
            return i;
        }
        i = i + 1;
    }
    i
}

/// Whether `b[from..from + 3]` holds the three bytes `x`, `y`, `z`.
fn starts3(b: &[u8], len: usize, x: u8, y: u8, z: u8) -> (r: bool)
    requires
        len <= b@.len(),
    ensures
        r == (b@.subrange(0, len as int) == seq![x, y, z]),
{
    if len != 3 {
        proof {
            assert(b@.subrange(0, len as int).len() != seq![x, y, z].len());
        }
        return false;
    }
    let r = b[0] == x && b[1] == y && b[2] == z;
    proof {
        if r {
            assert(b@.subrange(0, 3) =~= seq![x, y, z]);
        } else {
            if b@.subrange(0, 3) == seq![x, y, z] {
                assert(b@.subrange(0, 3)[0] == x);
                assert(b@.subrange(0, 3)[1] == y);
                assert(b@.subrange(0, 3)[2] == z);
            }
        }
    }
    r
}

impl Device {
    /// The machine that runs this program.
    pub fn host() -> (r: Self)
        ensures
            r@.0 == Backend::Host,
            r@.1 == "host"@,
    {
        Device { backend: Backend::Host, id: String::from_str("host") }
    }

    /// Whether this device is the machine that runs this program.
    pub fn is_host(&self) -> (r: bool)
        ensures
            r == (self@.0 == Backend::Host),
    {
        match self.backend {
            Backend::Host => true,
            _ => false,
        }
    }

    /// The backend that reaches this device.
    pub fn backend(&self) -> (r: Backend)
        ensures
            r == self@.0,
    {
        self.backend
    }

    /// Parses `host`, `adb:<id>` or `imd:<id>`.
    pub fn parse(s: &str) -> (r: Result<Self, DeviceError>)
        ensures
            match parse_device(s.spec_bytes()) {
                Ok((backend, id)) => r is Ok && r->Ok_0@.0 == backend && encode_utf8(r->Ok_0@.1)
                    == id,
                Err(e) => r is Err && r->Err_0 == e,
            },
    {
        let b = s.as_bytes();
        let n = b.len();
        if n == 4 && b[0] == 0x68 && b[1] == 0x6f && b[2] == 0x73 && b[3] == 0x74 {
            proof {
                assert(b@ =~= host_bytes());
            }
            return Ok(Device { backend: Backend::Host, id: s.to_owned() });
        }
        proof {
            if b@ == host_bytes() {
                assert(b@[0] == 0x68 && b@[1] == 0x6f && b@[2] == 0x73 && b@[3] == 0x74);
            }
        }
        let i = find_colon_exec(b);
        if i == n || !s.is_char_boundary(i + 1) {
            return Err(DeviceError::InvalidIdentifier);
        }
        let backend = if starts3(b, i, 0x61, 0x64, 0x62) {
            Backend::Adb
        } else if starts3(b, i, 0x69, 0x6d, 0x64) {
            Backend::Imd
        } else {
            return Err(DeviceError::UnsupportedBackend);
        };
        let (_, rest) = s.split_at(i + 1);
        Ok(Device { backend, id: rest.to_owned() })
    }

    /// The identifier as written: `host`, `adb:<id>` or `imd:<id>`.
    pub fn to_string(&self) -> (r: String)
        ensures
            r@ == match self@.0 {
                Backend::Host => self@.1,
                Backend::Adb => "adb:"@ + self@.1,
                Backend::Imd => "imd:"@ + self@.1,
            },
    {
        match self.backend {
            Backend::Host => self.id.clone(),
            Backend::Adb => String::from_str("adb:").concat(self.id.as_str()),
            Backend::Imd => String::from_str("imd:").concat(self.id.as_str()),
        }
    }
}

impl std::str::FromStr for Device {
    type Err = DeviceError;

    fn from_str(s: &str) -> (r: Result<Self, DeviceError>)
        ensures
            match parse_device(s.spec_bytes()) {
                Ok((backend, id)) => r is Ok && r->Ok_0@.0 == backend && encode_utf8(r->Ok_0@.1)
                    == id,
                Err(e) => r is Err && r->Err_0 == e,
            },
    {
        Device::parse(s)
    }
}

} // verus!
