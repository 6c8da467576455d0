//! Storage-path encoding: validation and representation of store keys.
//!
//! A path is an ASCII byte string of the shape `(/[A-Za-z0-9.]+)+`, at most
//! [`PATH_MAX_SIZE`] bytes long.  Paths name locations in the durable part of
//! the key-value store; the host roots them under an implicit prefix (see
//! [`durable_prefix`]).

use vstd::prelude::*;

verus! {

/// The separator byte between *steps* in a path (`b'/'`).
pub const PATH_SEPARATOR: u8 = 47;

/// The maximum size (in bytes) of a path: 250 bytes minus the length of the
/// implicit durable-storage prefix.
pub const PATH_MAX_SIZE: usize = 242;

/// The implicit prefix of all durable storage, as a byte sequence (`/durable`).
pub open spec fn durable_prefix() -> Seq<u8> {
    seq![47u8, 100u8, 117u8, 114u8, 97u8, 98u8, 108u8, 101u8]
}

/// A durable-store key: the implicit prefix followed by the path's own bytes.
pub open spec fn durable_key(path: Seq<u8>) -> Seq<u8> {
    durable_prefix() + path
}

/// The reserved path whose contents point at the kernel to be loaded on
/// the next reboot (`/kernel/next`).
pub open spec fn kernel_next_path() -> Seq<u8> {
    seq![47u8, 107u8, 101u8, 114u8, 110u8, 101u8, 108u8, 47u8, 110u8, 101u8, 120u8, 116u8]
}

/// The reserved path holding the binary blob of the currently running
/// kernel, or of the next kernel to be rebooted into
/// (`/kernel/boot.wasm`).
pub open spec fn kernel_boot_path() -> Seq<u8> {
    seq![
        47u8,
        107u8,
        101u8,
        114u8,
        110u8,
        101u8,
        108u8,
        47u8,
        98u8,
        111u8,
        111u8,
        116u8,
        46u8,
        119u8,
        97u8,
        115u8,
        109u8,
    ]
}

/// Whether `b` may appear inside a step: ASCII alphanumeric or `b'.'`.
pub open spec fn is_step_byte(b: u8) -> bool {
    (65 <= b <= 90) || (97 <= b <= 122) || (48 <= b <= 57) || b == 46
}

/// Whether `byte` may appear inside a step of a path.
pub fn is_allowed_step_byte(byte: u8) -> (r: bool)
    ensures
        r == is_step_byte(byte),
{
    (65 <= byte && byte <= 90) || (97 <= byte && byte <= 122) || (48 <= byte && byte <= 57) || byte
        == 46
}

/// The path grammar `(/[A-Za-z0-9.]+)+`, without the length bound.
pub open spec fn is_path_shape(s: Seq<u8>) -> bool {
    &&& s.len() >= 1
    &&& s[0] == PATH_SEPARATOR
    &&& s[s.len() - 1] != PATH_SEPARATOR
    &&& (forall|i: int|
        0 <= i < s.len() ==> s[i] == PATH_SEPARATOR || is_step_byte(#[trigger] s[i]))
    &&& (forall|i: int|
        0 < i < s.len() ==> !(s[i - 1] == PATH_SEPARATOR && #[trigger] s[i] == PATH_SEPARATOR))
}

/// A valid path: matches the grammar and fits in [`PATH_MAX_SIZE`] bytes.
pub open spec fn is_valid_path(s: Seq<u8>) -> bool {
    is_path_shape(s) && s.len() <= PATH_MAX_SIZE
}

/// The number of separator bytes in `s` (equals the number of steps of a
/// valid path).
pub open spec fn sep_count(s: Seq<u8>) -> nat
    decreases s.len(),
{
    if s.len() == 0 {
        0
    } else {
        sep_count(s.drop_last()) + (if s.last() == PATH_SEPARATOR {
            1nat
        } else {
            0nat
        })
    }
}

/// Possible path validation errors.
#[derive(Copy, Eq, PartialEq, Structural, Clone, Debug)]
pub enum PathError {
    /// Path contains no steps.
    PathEmpty,
    /// Path must be at most [`PATH_MAX_SIZE`] bytes in size.
    PathTooLong,
    /// Path must begin with [`PATH_SEPARATOR`].
    InvalidStart,
    /// Path must not contain empty steps.
    InvalidEmptyStep,
    /// Steps must be a sequence of bytes in `[A-Za-z0-9.]`.
    InvalidByteInStep,
}

/// Whether position `i` of `s` (for `i >= 1`) breaks no step rule: it is not
/// the second byte of a double separator, and is either a separator or a step
/// byte.
pub open spec fn step_ok_at(s: Seq<u8>, i: int) -> bool {
    &&& !(s[i - 1] == PATH_SEPARATOR && s[i] == PATH_SEPARATOR)
    &&& (s[i] == PATH_SEPARATOR || is_step_byte(s[i]))
}

/// The left-to-right scan of path bytes from position `i` on, reporting the
/// first step rule broken.
pub open spec fn spec_scan(s: Seq<u8>, i: int) -> Result<(), PathError>
    decreases s.len() - i,
{
    if i >= s.len() {
        Ok(())
    } else if s[i - 1] == PATH_SEPARATOR && s[i] == PATH_SEPARATOR {
        Err(PathError::InvalidEmptyStep)
    } else if s[i] != PATH_SEPARATOR && !is_step_byte(s[i]) {
        Err(PathError::InvalidByteInStep)
    } else {
        spec_scan(s, i + 1)
    }
}

/// The outcome of validating `s`, with the same error precedence as
/// [`validate_path`]: emptiness, then a trailing separator, then the length
/// bound, then the leading separator, then a left-to-right scan of the steps.
pub open spec fn spec_validate(s: Seq<u8>) -> Result<(), PathError> {
    if s.len() == 0 {
        Err(PathError::PathEmpty)
    } else if s[s.len() - 1] == PATH_SEPARATOR {
        Err(PathError::InvalidEmptyStep)
    } else if s.len() > PATH_MAX_SIZE {
        Err(PathError::PathTooLong)
    } else if s[0] != PATH_SEPARATOR {
        Err(PathError::InvalidStart)
    } else {
        spec_scan(s, 1)
    }
}

proof fn lemma_scan_iff(s: Seq<u8>, i: int)
    requires
        1 <= i <= s.len(),
    ensures
        spec_scan(s, i) is Ok <==> (forall|j: int| i <= j < s.len() ==> step_ok_at(s, j)),
    decreases s.len() - i,
{
    if i < s.len() {
        lemma_scan_iff(s, i + 1);
        if s[i - 1] == PATH_SEPARATOR && s[i] == PATH_SEPARATOR {
            assert(!step_ok_at(s, i));
        } else if s[i] != PATH_SEPARATOR && !is_step_byte(s[i]) {
            assert(!step_ok_at(s, i));
        } else {
            assert(step_ok_at(s, i));
            assert(spec_scan(s, i) == spec_scan(s, i + 1));
        }
    }
}

/// A valid path is exactly one that passes the full validation.
pub proof fn lemma_validate_iff_valid(s: Seq<u8>)
    ensures
        spec_validate(s) is Ok <==> is_valid_path(s),
{
    if s.len() == 0 {
    } else if s[s.len() - 1] == PATH_SEPARATOR {
    } else if s.len() > PATH_MAX_SIZE {
    } else if s[0] != PATH_SEPARATOR {
    } else {
        lemma_scan_iff(s, 1);
        if spec_scan(s, 1) is Ok {
            assert forall|i: int| 0 <= i < s.len() implies s[i] == PATH_SEPARATOR || is_step_byte(
                #[trigger] s[i],
            ) by {
                if i > 0 {
                    assert(step_ok_at(s, i));
                }
            }
            assert forall|i: int| 0 < i < s.len() implies !(s[i - 1] == PATH_SEPARATOR
                && #[trigger] s[i] == PATH_SEPARATOR) by {
                assert(step_ok_at(s, i));
            }
        }
        if is_valid_path(s) {
            assert forall|j: int| 1 <= j < s.len() implies step_ok_at(s, j) by {}
        }
    }
}

/// Validates an untrusted byte sequence against the path grammar.
///
/// Returns `Ok(())` exactly when the bytes match `(/[A-Za-z0-9.]+)+` and are
/// at most [`PATH_MAX_SIZE`] long; otherwise reports the first error found,
/// in the precedence order of [`spec_validate`].
pub fn validate_path(path: &[u8]) -> (r: Result<(), PathError>)
    ensures
        r == spec_validate(path@),
        r is Ok <==> is_valid_path(path@),
{
    proof {
        lemma_validate_iff_valid(path@);
    }
    let n = path.len();
    if n == 0 {
        return Err(PathError::PathEmpty);
    }
    if path[n - 1] == PATH_SEPARATOR {
        return Err(PathError::InvalidEmptyStep);
    }
    if n > PATH_MAX_SIZE {
        return Err(PathError::PathTooLong);
    }
    if path[0] != PATH_SEPARATOR {
        return Err(PathError::InvalidStart);
    }
    let mut i: usize = 1;
    while i < n
        invariant
            1 <= i <= n,
            n == path@.len(),
            spec_validate(path@) == spec_scan(path@, 1),
            spec_scan(path@, 1) == spec_scan(path@, i as int),
        decreases n - i,
    {
        if path[i - 1] == PATH_SEPARATOR && path[i] == PATH_SEPARATOR {
            assert(spec_scan(path@, i as int) == Err::<(), PathError>(PathError::InvalidEmptyStep));
            return Err(PathError::InvalidEmptyStep);
        }
        if path[i] != PATH_SEPARATOR && !is_allowed_step_byte(path[i]) {
            assert(spec_scan(path@, i as int) == Err::<(), PathError>(
                PathError::InvalidByteInStep,
            ));
            return Err(PathError::InvalidByteInStep);
        }
        proof {
            assert(spec_scan(path@, i as int) == spec_scan(path@, i as int + 1));
        }
        i = i + 1;
    }
    Ok(())
}

/// Aborts compilation of a proof unless `path` is known to be a valid path;
/// the runtime check never fails under this function's precondition.
pub fn assert_is_valid_path(path: &[u8])
    requires
        is_valid_path(path@),
{
    let r = validate_path(path);
    assert(r is Ok);
}

/// Builds the reserved path pointing at the kernel to boot next.
pub fn path_kernel_next() -> (r: OwnedPath)
    ensures
        r.path_bytes() == kernel_next_path(),
{
    let mut v: Vec<u8> = Vec::new();
    v.push(47);
    v.push(107);
    v.push(101);
    v.push(114);
    v.push(110);
    v.push(101);
    v.push(108);
    v.push(47);
    v.push(110);
    v.push(101);
    v.push(120);
    v.push(116);
    proof {
        assert(v@ =~= kernel_next_path());
        assert(is_valid_path(v@));
    }
    OwnedPath::from_bytes_unchecked(v)
}

/// Builds the reserved path holding the boot kernel binary.
pub fn path_kernel_boot() -> (r: OwnedPath)
    ensures
        r.path_bytes() == kernel_boot_path(),
{
    let mut v: Vec<u8> = Vec::new();
    v.push(47);
    v.push(107);
    v.push(101);
    v.push(114);
    v.push(110);
    v.push(101);
    v.push(108);
    v.push(47);
    v.push(98);
    v.push(111);
    v.push(111);
    v.push(116);
    v.push(46);
    v.push(119);
    v.push(97);
    v.push(115);
    v.push(109);
    proof {
        assert(v@ =~= kernel_boot_path());
        assert(is_valid_path(v@));
    }
    OwnedPath::from_bytes_unchecked(v)
}

/// Methods shared by types representing a validly encoded path.
///
/// Every implementor holds a byte sequence satisfying [`is_valid_path`];
/// [`Path::lemma_valid`] makes that fact available to callers.
pub trait Path {
    /// The represented path, as a byte sequence.
    spec fn path_bytes(&self) -> Seq<u8>;

    /// Returns a read-only reference to the underlying path-encoded bytes,
    /// which always form a valid path.
    fn as_bytes(&self) -> (r: &[u8])
        ensures
            r@ == self.path_bytes(),
            is_valid_path(self.path_bytes()),
    ;

    /// Returns the size of the path in bytes.
    fn size(&self) -> (r: usize)
        ensures
            r == self.path_bytes().len(),
    ;

    /// Returns the length of the path as a sequence of steps, counted by its
    /// separator occurrences.
    fn len_steps(&self) -> (r: usize)
        ensures
            r == sep_count(self.path_bytes()),
    ;
}

/// Counts the separator bytes of `s`.
fn count_separators(s: &[u8]) -> (r: usize)
    ensures
        r == sep_count(s@),
{
    let n = s.len();
    let mut count: usize = 0;
    let mut i: usize = 0;
    while i < n
        invariant
            0 <= i <= n,
            n == s@.len(),
            count == sep_count(s@.take(i as int)),
            count <= i,
        decreases n - i,
    {
        proof {
            assert(s@.take(i + 1).drop_last() =~= s@.take(i as int));
            assert(s@.take(i + 1).last() == s@[i as int]);
        }
        if s[i] == PATH_SEPARATOR {
            count = count + 1;
        }
        i = i + 1;
    }
    proof {
        assert(s@.take(n as int) =~= s@);
    }
    count
}

/// A [`Path`] which borrows its underlying byte sequence.
///
/// Useful when a path is known up front, or when only a view over a path is
/// required: a `RefPath` may be freely copied, since it does not own its
/// bytes.  Otherwise, use [`OwnedPath`].
#[derive(Debug, Clone, Copy, PartialEq, Eq)]
pub struct RefPath<'a> {
    inner: &'a [u8],
}

impl<'a> RefPath<'a> {
    #[verifier::type_invariant]
    spec fn type_inv(self) -> bool {
        is_valid_path(self.inner@)
    }

    /// Constructs a [`RefPath`] from a byte slice already known to be a valid
    /// path; the check in the body never fails under the precondition.
    pub fn assert_from(path: &'a [u8]) -> (r: RefPath<'a>)
        requires
            is_valid_path(path@),
        ensures
            r.path_bytes() == path@,
    {
        assert_is_valid_path(path);
        RefPath { inner: path }
    }

    /// Validates `slice` and constructs a [`RefPath`] over it, or reports the
    /// first grammar error.
    pub fn try_from(slice: &'a [u8]) -> (r: Result<RefPath<'a>, PathError>)
        ensures
            r is Ok <==> is_valid_path(slice@),
            r matches Ok(p) ==> p.path_bytes() == slice@,
            r matches Err(e) ==> Err::<(), PathError>(e) == spec_validate(slice@),
    {
        match validate_path(slice) {
            Ok(_) => Ok(RefPath { inner: slice }),
            Err(e) => Err(e),
        }
    }

    /// Copies this path into an [`OwnedPath`].
    pub fn to_owned_path(&self) -> (r: OwnedPath)
        ensures
            r.path_bytes() == self.path_bytes(),
    {
        proof {
            use_type_invariant(self);
        }
        OwnedPath::from_bytes_unchecked(vstd::slice::slice_to_vec(self.inner))
    }
}

impl<'a> Path for RefPath<'a> {
    closed spec fn path_bytes(&self) -> Seq<u8> {
        self.inner@
    }

    fn as_bytes(&self) -> (r: &[u8]) {
        proof {
            use_type_invariant(self);
        }
        self.inner
    }

    fn size(&self) -> (r: usize) {
        self.inner.len()
    }

    fn len_steps(&self) -> (r: usize) {
        count_separators(self.inner)
    }
}

/// A [`Path`] which owns its underlying path-encoded byte sequence.
///
/// Useful when a new path is constructed at runtime, for example from a
/// prefix and a subkey.
#[derive(Debug, PartialEq, Eq)]
pub struct OwnedPath {
    inner: Vec<u8>,
}

impl OwnedPath {
    #[verifier::type_invariant]
    spec fn type_inv(self) -> bool {
        is_valid_path(self.inner@)
    }

    /// Constructs an [`OwnedPath`] from bytes already known to be a valid
    /// path; no runtime validation is performed.
    pub fn from_bytes_unchecked(bytes: Vec<u8>) -> (r: OwnedPath)
        requires
            is_valid_path(bytes@),
        ensures
            r.path_bytes() == bytes@,
    {
        OwnedPath { inner: bytes }
    }

    /// Validates `bytes` and constructs an [`OwnedPath`] from them, or
    /// reports the first grammar error.
    pub fn try_from(bytes: Vec<u8>) -> (r: Result<OwnedPath, PathError>)
        ensures
            r is Ok <==> is_valid_path(bytes@),
            r matches Ok(p) ==> p.path_bytes() == bytes@,
            r matches Err(e) ==> Err::<(), PathError>(e) == spec_validate(bytes@),
    {
        match validate_path(bytes.as_slice()) {
            Ok(_) => Ok(OwnedPath { inner: bytes }),
            Err(e) => Err(e),
        }
    }

    /// Returns a borrowing view over this path.
    pub fn as_ref_path<'a>(&'a self) -> (r: RefPath<'a>)
        ensures
            r.path_bytes() == self.path_bytes(),
    {
        proof {
            use_type_invariant(self);
        }
        RefPath::assert_from(self.inner.as_slice())
    }
}

impl Path for OwnedPath {
    closed spec fn path_bytes(&self) -> Seq<u8> {
        self.inner@
    }

    fn as_bytes(&self) -> (r: &[u8]) {
        proof {
            use_type_invariant(self);
        }
        self.inner.as_slice()
    }

    fn size(&self) -> (r: usize) {
        self.inner.len()
    }

    fn len_steps(&self) -> (r: usize) {
        count_separators(self.inner.as_slice())
    }
}

} // verus!
