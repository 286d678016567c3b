//! Naming the applications packed into a file-system image.
use vstd::prelude::*;
use vstd::string::StringSliceAdditionalSpecFns;
use vstd::utf8::{encode_utf8, is_char_boundary, length_of_first_scalar, valid_utf8};

verus! {

/// The position of the first `.` in a byte string.
pub open spec fn first_dot(b: Seq<u8>) -> int {
    choose|i: int| 0 <= i < b.len() && b[i] == 0x2e && forall|j: int| 0 <= j < i ==> b[j] != 0x2e
}

/// A byte string with a `.` has a first one: a `.` with none before it.
pub proof fn lemma_first_dot(b: Seq<u8>)
    requires
        b.contains(0x2e),
    ensures
        0 <= first_dot(b) < b.len(),
        b[first_dot(b)] == 0x2e,
        forall|j: int| 0 <= j < first_dot(b) ==> b[j] != 0x2e,
        !b.take(first_dot(b)).contains(0x2e),
{
    let k = b.index_of(0x2e);
    let m = lemma_first_dot_below(b, k);
    assert(0 <= m < b.len() && b[m] == 0x2e && forall|j: int| 0 <= j < m ==> b[j] != 0x2e);
    let d = first_dot(b);
    if b.take(d).contains(0x2e) {
        let j = b.take(d).index_of(0x2e);
        assert(b[j] == 0x2e);
    }
}

/// The first `.` at or below the `.` at position `i`.
proof fn lemma_first_dot_below(b: Seq<u8>, i: int) -> (m: int)
    requires
        0 <= i < b.len(),
        b[i] == 0x2e,
    ensures
        0 <= m <= i,
        b[m] == 0x2e,
        forall|j: int| 0 <= j < m ==> b[j] != 0x2e,
    decreases i,
{
    if forall|j: int| 0 <= j < i ==> b[j] != 0x2e {
        i
    } else {
        let j = choose|j: int| 0 <= j < i && b[j] == 0x2e;
        lemma_first_dot_below(b, j)
    }
}

/// A byte below 0x80 in valid UTF-8 starts a character.
proof fn lemma_ascii_byte_is_boundary(b: Seq<u8>, i: int)
    requires
        valid_utf8(b),
        0 <= i < b.len(),
        b[i] <= 0x7f,
    ensures
        is_char_boundary(b, i),
    decreases b.len(),
{
    if i != 0 {
        let l = length_of_first_scalar(b);
        assert(1 <= l <= 4);
        assert(i >= l) by {
            if i < l {
                assert(vstd::utf8::is_continuation_byte(b[i]));
            }
        }
        let rest = b.subrange(l, b.len() as int);
        assert(rest[i - l] == b[i]);
        lemma_ascii_byte_is_boundary(rest, i - l);
    }
}

/// The name of an application from the name of its file: everything before
/// the first `.`.
pub fn app_name(file_name: &str) -> (name: String)
    requires
        file_name.spec_bytes().contains(0x2e),
    ensures
        encode_utf8(name@) == file_name.spec_bytes().take(first_dot(file_name.spec_bytes())),
        encode_utf8(name@).len() < file_name.spec_bytes().len(),
        file_name.spec_bytes()[encode_utf8(name@).len() as int] == 0x2e,
        !encode_utf8(name@).contains(0x2e),
        encode_utf8(name@) == file_name.spec_bytes().take(encode_utf8(name@).len() as int),
{
    let bytes = file_name.as_bytes();
    let ghost b = file_name.spec_bytes();
    let mut i: usize = 0;
    while i < bytes.len()
        invariant
            bytes@ == b,
            i <= bytes.len(),
            b.contains(0x2e),
            forall|j: int| 0 <= j < i ==> b[j] != 0x2e,
        ensures
            i == bytes.len() || (i < bytes.len() && b[i as int] == 0x2e),
            forall|j: int| 0 <= j < i ==> b[j] != 0x2e,
        decreases bytes.len() - i,
    {
        if bytes[i] == 0x2e {
            break;
        }
        i += 1;
    }
    proof {
        if i == bytes.len() {
            let k = b.index_of(0x2e);
            assert(b[k] == 0x2e);
        }
        assert(b[i as int] == 0x2e);
        let d = first_dot(b);
        assert(0 <= d < b.len() && b[d] == 0x2e && forall|j: int| 0 <= j < d ==> b[j] != 0x2e);
        assert(d == i) by {
            if d < i {
                assert(b[d] != 0x2e);
            }
            if d > i {
                assert(b[i as int] != 0x2e);
            }
        }
        vstd::utf8::encode_utf8_valid_utf8(file_name@);
        lemma_ascii_byte_is_boundary(b, i as int);
    }
    let (prefix, _) = file_name.split_at(i);
    let name = prefix.to_owned();
    proof {
        assert(prefix.spec_bytes() == encode_utf8(prefix@));
        assert(b.subrange(0, i as int) =~= b.take(i as int));
        lemma_first_dot(b);
        let nb = encode_utf8(name@);
        if nb.contains(0x2e) {
            let k = nb.index_of(0x2e);
            assert(b[k] == nb[k]);
        }
    }
    name
}

} // verus!
