//! Segment-component paths.
//!
//! A segment file's logical path reads
//! `"<segment-uuid>[.<generation>].<component-extension>"`.  The segment
//! id is recovered by taking the substring before the first `.` and
//! parsing it as a UUID, in either the plain 32-hex-digit form or the
//! hyphenated 8-4-4-4-12 form.  A path without a `.`, or with an
//! unparsable prefix, is a caller-side bug and is rejected.

use vstd::prelude::*;

use vstd::string::StrSliceExecFns;

use crate::block::SegmentId;
use crate::block::StoreError;

verus! {

/// A logical segment-component path.
pub struct SegmentComponentPath(pub String);

/// The segment id a component path belongs to.
pub struct SegmentComponentId(pub SegmentId);

/// Whether `c` is a hexadecimal digit.
pub open spec fn spec_is_hex_digit(c: char) -> bool {
    ('0' <= c && c <= '9') || ('a' <= c && c <= 'f') || ('A' <= c && c <= 'F')
}

/// Numeric value of a hexadecimal digit.
pub open spec fn spec_hex_digit_value(c: char) -> int {
    if '0' <= c && c <= '9' {
        (c as u128) - ('0' as u128)
    } else if 'a' <= c && c <= 'f' {
        (c as u128) - ('a' as u128) + 10
    } else {
        (c as u128) - ('A' as u128) + 10
    }
}

/// Value of a big-endian string of hexadecimal digits.
pub open spec fn spec_hex_value(digits: Seq<char>) -> int
    decreases digits.len(),
{
    if digits.len() == 0 {
        0
    } else {
        spec_hex_value(digits.drop_last()) * 16 + spec_hex_digit_value(digits.last())
    }
}

/// Sixteen to the `k`th power.
pub open spec fn spec_pow16(k: nat) -> int
    decreases k,
{
    if k == 0 {
        1
    } else {
        16 * spec_pow16((k - 1) as nat)
    }
}

/// In the hyphenated UUID form, the position of the `k`th hex digit:
/// hyphens sit at positions 8, 13, 18 and 23.
pub open spec fn spec_digit_pos(k: int) -> int {
    k + (if k >= 8 {
        1int
    } else {
        0int
    }) + (if k >= 12 {
        1int
    } else {
        0int
    }) + (if k >= 16 {
        1int
    } else {
        0int
    }) + (if k >= 20 {
        1int
    } else {
        0int
    })
}

/// The 32 hex digits of a UUID string, hyphens stripped.
pub open spec fn spec_uuid_digits(s: Seq<char>) -> Seq<char> {
    if s.len() == 36 {
        Seq::new(32, |k: int| s[spec_digit_pos(k)])
    } else {
        s
    }
}

/// The plain UUID form: exactly 32 hex digits.
pub open spec fn spec_uuid_simple_valid(s: Seq<char>) -> bool {
    s.len() == 32 && forall|i: int| 0 <= i < 32 ==> spec_is_hex_digit(#[trigger] s[i])
}

/// The hyphenated UUID form: 8-4-4-4-12 hex digits with `-` between the
/// groups.
pub open spec fn spec_uuid_hyphenated_valid(s: Seq<char>) -> bool {
    &&& s.len() == 36
    &&& s[8] == '-'
    &&& s[13] == '-'
    &&& s[18] == '-'
    &&& s[23] == '-'
    &&& forall|k: int| 0 <= k < 32 ==> spec_is_hex_digit(#[trigger] s[spec_digit_pos(k)])
}

/// A parsable UUID string, in either accepted form.
pub open spec fn spec_uuid_valid(s: Seq<char>) -> bool {
    spec_uuid_simple_valid(s) || spec_uuid_hyphenated_valid(s)
}

/// The 128-bit value a UUID string denotes.
pub open spec fn spec_uuid_value(s: Seq<char>) -> int {
    spec_hex_value(spec_uuid_digits(s))
}

/// Position of the first `.` in a path.
pub open spec fn spec_first_dot(s: Seq<char>) -> Option<int>
    decreases s.len(),
{
    if s.len() == 0 {
        None
    } else if s[0] == '.' {
        Some(0int)
    } else {
        match spec_first_dot(s.skip(1)) {
            None => None,
            Some(i) => Some(i + 1),
        }
    }
}

/// A path parses when it has a `.` and a UUID before the first one.
pub open spec fn spec_path_parses(s: Seq<char>) -> bool {
    match spec_first_dot(s) {
        None => false,
        Some(i) => spec_uuid_valid(s.take(i)),
    }
}

/// The segment id of a parsable path.
pub open spec fn spec_path_segment_id(s: Seq<char>) -> SegmentId {
    SegmentId { bits: spec_uuid_value(s.take(spec_first_dot(s)->Some_0)) as u128 }
}

/// A character seen at `n` behind no earlier dot pins the first dot down.
pub proof fn lemma_first_dot_found(s: Seq<char>, n: int)
    requires
        0 <= n < s.len(),
        s[n] == '.',
        forall|k: int| 0 <= k < n ==> (#[trigger] s[k]) != '.',
    ensures
        spec_first_dot(s) == Some(n),
    decreases n,
{
    if n == 0 {
    } else {
        assert(s[0] != '.');
        let tail = s.skip(1);
        assert(tail[n - 1] == s[n]);
        assert(forall|k: int| 0 <= k < n - 1 ==> (#[trigger] tail[k]) == s[k + 1]);
        lemma_first_dot_found(tail, n - 1);
    }
}

/// With no dot anywhere there is no first dot.
pub proof fn lemma_first_dot_none(s: Seq<char>)
    requires
        forall|k: int| 0 <= k < s.len() ==> (#[trigger] s[k]) != '.',
    ensures
        spec_first_dot(s) is None,
    decreases s.len(),
{
    if s.len() == 0 {
    } else {
        let tail = s.skip(1);
        assert(forall|k: int| 0 <= k < tail.len() ==> (#[trigger] tail[k]) == s[k + 1]);
        lemma_first_dot_none(tail);
    }
}

/// The value of a digit string is bounded by sixteen to its length.
pub proof fn lemma_hex_value_bound(digits: Seq<char>)
    requires
        forall|i: int| 0 <= i < digits.len() ==> spec_is_hex_digit(#[trigger] digits[i]),
    ensures
        0 <= spec_hex_value(digits) < spec_pow16(digits.len()),
    decreases digits.len(),
{
    if digits.len() == 0 {
    } else {
        assert(forall|i: int|
            0 <= i < digits.drop_last().len() ==> spec_is_hex_digit(
                #[trigger] digits.drop_last()[i],
            ));
        lemma_hex_value_bound(digits.drop_last());
        let prev = spec_hex_value(digits.drop_last());
        let p = spec_pow16((digits.len() - 1) as nat);
        assert(prev * 16 + spec_hex_digit_value(digits.last()) < p * 16) by {
            assert(spec_is_hex_digit(digits[digits.len() - 1]));
            assert(spec_hex_digit_value(digits.last()) < 16);
            assert(prev <= p - 1);
            assert(prev * 16 <= (p - 1) * 16) by (nonlinear_arith)
                requires
                    prev <= p - 1,
            ;
        }
    }
}

/// Numeric value of a hexadecimal digit character, if it is one.
pub fn hex_digit_value(c: char) -> (r: Option<u8>)
    ensures
        (r is Some) == spec_is_hex_digit(c),
        r is Some ==> r->Some_0 as u128 == spec_hex_digit_value(c),
{
    if '0' <= c && c <= '9' {
        Some((c as u8) - ('0' as u8))
    } else if 'a' <= c && c <= 'f' {
        Some((c as u8) - ('a' as u8) + 10)
    } else if 'A' <= c && c <= 'F' {
        Some((c as u8) - ('A' as u8) + 10)
    } else {
        None
    }
}

impl SegmentId {
    /// Parse a segment id from its UUID string, accepting the plain and
    /// the hyphenated textual forms and nothing else.
    pub fn from_uuid_string(s: &str) -> (r: Result<SegmentId, StoreError>)
        ensures
            (r is Ok) == spec_uuid_valid(s@),
            r is Ok ==> r->Ok_0 == (SegmentId { bits: spec_uuid_value(s@) as u128 }),
            r is Err ==> r == Err::<SegmentId, StoreError>(StoreError::InvalidPath),
    {
        let n = s.unicode_len();
        if n == 32 {
            let mut v: u128 = 0;
            let mut k: usize = 0;
            proof {
                assert(spec_uuid_digits(s@) == s@);
                assert(s@.take(0) =~= Seq::<char>::empty());
            }
            while k < 32
                invariant
                    s@.len() == 32,
                    k <= 32,
                    forall|i: int| 0 <= i < k ==> spec_is_hex_digit(#[trigger] s@[i]),
                    v == spec_hex_value(s@.take(k as int)),
                    0 <= v < spec_pow16(k as nat),
                decreases 32 - k,
            {
                let c = s.get_char(k);
                match hex_digit_value(c) {
                    Some(d) => {
                        proof {
                            assert(spec_pow16(32) == 0x100000000000000000000000000000000) by {
                                reveal_with_fuel(spec_pow16, 33);
                            }
                            lemma_pow16_increases(k as nat, 31);
                            assert(v < spec_pow16(31));
                            assert(spec_pow16(31) * 16 == spec_pow16(32));
                            assert(v * 16 + d < spec_pow16(32)) by (nonlinear_arith)
                                requires
                                    v < spec_pow16(31),
                                    spec_pow16(31) * 16 == spec_pow16(32),
                                    d < 16,
                            ;
                            assert(s@.take(k as int + 1).drop_last() =~= s@.take(k as int));
                            assert(s@.take(k as int + 1).last() == s@[k as int]);
                            assert(forall|i: int|
                                0 <= i < k as int + 1 ==> spec_is_hex_digit(
                                    #[trigger] s@.take(k as int + 1)[i],
                                ));
                            lemma_hex_value_bound(s@.take(k as int + 1));
                        }
                        v = v * 16 + (d as u128);
                    },
                    None => {
                        proof {
                            lemma_uuid_invalid_at(s@, k as int);
                        }
                        return Err(StoreError::InvalidPath);
                    },
                }
                k = k + 1;
            }
            proof {
                assert(s@.take(32) =~= s@);
                assert(spec_uuid_simple_valid(s@));
            }
            Ok(SegmentId { bits: v })
        } else if n == 36 {
            if s.get_char(8) != '-' || s.get_char(13) != '-' || s.get_char(18) != '-'
                || s.get_char(23) != '-' {
                proof {
                    assert(!spec_uuid_hyphenated_valid(s@));
                    assert(!spec_uuid_simple_valid(s@));
                }
                return Err(StoreError::InvalidPath);
            }
            let ghost digits = spec_uuid_digits(s@);
            let mut v: u128 = 0;
            let mut k: usize = 0;
            proof {
                assert(digits.take(0) =~= Seq::<char>::empty());
            }
            while k < 32
                invariant
                    s@.len() == 36,
                    digits == spec_uuid_digits(s@),
                    digits.len() == 32,
                    k <= 32,
                    forall|i: int|
                        0 <= i < k ==> spec_is_hex_digit(#[trigger] s@[spec_digit_pos(i)]),
                    v == spec_hex_value(digits.take(k as int)),
                    0 <= v < spec_pow16(k as nat),
                decreases 32 - k,
            {
                let pos = k + (if k >= 8 {
                    1
                } else {
                    0
                }) + (if k >= 12 {
                    1
                } else {
                    0
                }) + (if k >= 16 {
                    1
                } else {
                    0
                }) + (if k >= 20 {
                    1
                } else {
                    0
                });
                proof {
                    assert(pos as int == spec_digit_pos(k as int));
                    assert(digits[k as int] == s@[spec_digit_pos(k as int)]);
                }
                let c = s.get_char(pos);
                match hex_digit_value(c) {
                    Some(d) => {
                        proof {
                            assert(spec_pow16(32) == 0x100000000000000000000000000000000) by {
                                reveal_with_fuel(spec_pow16, 33);
                            }
                            lemma_pow16_increases(k as nat, 31);
                            assert(v < spec_pow16(31));
                            assert(spec_pow16(31) * 16 == spec_pow16(32));
                            assert(v * 16 + d < spec_pow16(32)) by (nonlinear_arith)
                                requires
                                    v < spec_pow16(31),
                                    spec_pow16(31) * 16 == spec_pow16(32),
                                    d < 16,
                            ;
                            assert(digits.take(k as int + 1).drop_last() =~= digits.take(k as int));
                            assert(digits.take(k as int + 1).last() == digits[k as int]);
                            assert(forall|i: int|
                                0 <= i < k as int + 1 ==> spec_is_hex_digit(
                                    #[trigger] digits.take(k as int + 1)[i],
                                ));
                            lemma_hex_value_bound(digits.take(k as int + 1));
                        }
                        v = v * 16 + (d as u128);
                    },
                    None => {
                        proof {
                            assert(!spec_uuid_hyphenated_valid(s@));
                            assert(!spec_uuid_simple_valid(s@));
                        }
                        return Err(StoreError::InvalidPath);
                    },
                }
                k = k + 1;
            }
            proof {
                assert(digits.take(32) =~= digits);
                assert(spec_uuid_hyphenated_valid(s@));
                assert(!spec_uuid_simple_valid(s@));
            }
            Ok(SegmentId { bits: v })
        } else {
            proof {
                assert(!spec_uuid_simple_valid(s@));
                assert(!spec_uuid_hyphenated_valid(s@));
            }
            Err(StoreError::InvalidPath)
        }
    }
}

/// Powers of sixteen grow with the exponent.
proof fn lemma_pow16_increases(a: nat, b: nat)
    requires
        a <= b,
    ensures
        spec_pow16(a) <= spec_pow16(b),
    decreases b,
{
    if a < b {
        lemma_pow16_increases(a, (b - 1) as nat);
        assert(spec_pow16(b) == 16 * spec_pow16((b - 1) as nat));
        assert(spec_pow16((b - 1) as nat) >= 1) by {
            lemma_pow16_positive((b - 1) as nat);
        }
    }
}

/// Powers of sixteen are positive.
proof fn lemma_pow16_positive(k: nat)
    ensures
        spec_pow16(k) >= 1,
    decreases k,
{
    if k > 0 {
        lemma_pow16_positive((k - 1) as nat);
    }
}

/// A 32-character string with a non-hex character is no UUID.
proof fn lemma_uuid_invalid_at(s: Seq<char>, i: int)
    requires
        s.len() == 32,
        0 <= i < 32,
        !spec_is_hex_digit(s[i]),
    ensures
        !spec_uuid_valid(s),
{
    assert(!spec_uuid_simple_valid(s));
    assert(!spec_uuid_hyphenated_valid(s));
}

impl SegmentComponentId {
    /// The segment id of a component path: the substring before the first
    /// `.`, read as a UUID.  A path without a `.` or with an unparsable
    /// prefix is rejected.
    pub fn try_from(path: &SegmentComponentPath) -> (r: Result<SegmentComponentId, StoreError>)
        ensures
            (r is Ok) == spec_path_parses(path.0@),
            r is Ok ==> r->Ok_0.0 == spec_path_segment_id(path.0@),
            r is Err ==> r == Err::<SegmentComponentId, StoreError>(StoreError::InvalidPath),
    {
        let s: &str = path.0.as_str();
        let n = s.unicode_len();
        let mut i: usize = 0;
        while i < n
            invariant
                s@ == path.0@,
                n == s@.len(),
                i <= n,
                forall|k: int| 0 <= k < i ==> (#[trigger] s@[k]) != '.',
            decreases n - i,
        {
            if s.get_char(i) == '.' {
                proof {
                    lemma_first_dot_found(s@, i as int);
                }
                let prefix = s.substring_char(0, i);
                proof {
                    assert(prefix@ =~= s@.take(i as int));
                }
                match SegmentId::from_uuid_string(prefix) {
                    Ok(id) => {
                        proof {
                            assert(s@ == path.0@);
                            assert(spec_first_dot(path.0@) == Some(i as int));
                            assert(spec_uuid_valid(path.0@.take(i as int)));
                            assert(spec_path_parses(path.0@));
                        }
                        return Ok(SegmentComponentId(id));
                    },
                    Err(e) => {
                        return Err(StoreError::InvalidPath);
                    },
                }
            }
            i = i + 1;
        }
        proof {
            lemma_first_dot_none(s@);
        }
        Err(StoreError::InvalidPath)
    }
}

} // verus!
