//! Validated DNS-like names. A name is a dot-separated sequence of labels,
//! each 1 to 63 bytes of lowercase letters, digits and inner hyphens, with an
//! optional single trailing dot; the last label is never all digits, which is
//! what tells a hostname from an IPv4 literal. Input is accepted
//! case-insensitively and normalized to lowercase.

use vstd::prelude::*;

verus! {

pub open spec fn is_dot(b: u8) -> bool {
    b == 0x2e
}

pub open spec fn is_hyphen(b: u8) -> bool {
    b == 0x2d
}

pub open spec fn is_digit(b: u8) -> bool {
    0x30 <= b <= 0x39
}

pub open spec fn is_lower_letter(b: u8) -> bool {
    0x61 <= b <= 0x7a
}

/// The bytes a normalized name may hold.
pub open spec fn is_name_byte(b: u8) -> bool {
    is_lower_letter(b) || is_digit(b) || is_hyphen(b) || is_dot(b)
}

/// An uppercase ASCII letter mapped to lowercase; any other byte unchanged.
pub open spec fn lower_byte(b: u8) -> u8 {
    if 0x41 <= b <= 0x5a {
        (b + 0x20) as u8
    } else {
        b
    }
}

/// The whole byte sequence mapped to lowercase.
pub open spec fn to_lower(s: Seq<u8>) -> Seq<u8> {
    s.map_values(|b: u8| lower_byte(b))
}

/// No dot occurs at the positions lo..hi.
pub open spec fn dot_free(s: Seq<u8>, lo: int, hi: int) -> bool {
    forall|k: int| lo <= k < hi ==> !is_dot(#[trigger] s[k])
}

/// A label separator: every dot, plus the virtual separators just before and
/// just after the sequence.
pub open spec fn is_sep(s: Seq<u8>, k: int) -> bool {
    k == -1 || k == s.len() || (0 <= k < s.len() && is_dot(s[k]))
}

/// Every label, that is every maximal dot-free run between two separators,
/// has 1 to 63 bytes.
pub open spec fn labels_sized(s: Seq<u8>) -> bool {
    forall|i: int, j: int|
        #![trigger is_sep(s, i), is_sep(s, j)]
        -1 <= i < j <= s.len() && is_sep(s, i) && is_sep(s, j) && dot_free(s, i + 1, j) ==> 1 <= j
            - i - 1 <= 63
}

/// Every byte is one a normalized name may hold.
pub open spec fn all_name_bytes(s: Seq<u8>) -> bool {
    forall|k: int| 0 <= k < s.len() ==> is_name_byte(#[trigger] s[k])
}

/// A hyphen never stands first or last in a label.
pub open spec fn hyphens_inner(s: Seq<u8>) -> bool {
    forall|k: int|
        0 <= k < s.len() && is_hyphen(#[trigger] s[k]) ==> 0 < k && !is_dot(s[k - 1]) && k + 1
            < s.len() && !is_dot(s[k + 1])
}

/// The last label holds at least one byte that is neither a digit nor a dot.
pub open spec fn last_label_not_numeric(s: Seq<u8>) -> bool {
    exists|k: int|
        0 <= k < s.len() && !is_digit(#[trigger] s[k]) && !is_dot(s[k]) && dot_free(
            s,
            k + 1,
            s.len() as int,
        )
}

/// A valid name without its optional trailing dot.
pub open spec fn valid_name_body(s: Seq<u8>) -> bool {
    &&& s.len() > 0
    &&& all_name_bytes(s)
    &&& labels_sized(s)
    &&& hyphens_inner(s)
    &&& last_label_not_numeric(s)
}

/// The sequence with one trailing dot stripped, if it carries one.
pub open spec fn strip_dot(s: Seq<u8>) -> Seq<u8> {
    if s.len() > 0 && is_dot(s[s.len() - 1]) {
        s.drop_last()
    } else {
        s
    }
}

/// A valid normalized name: a valid body, optionally followed by one trailing
/// dot.
pub open spec fn valid_name(s: Seq<u8>) -> bool {
    valid_name_body(strip_dot(s))
}

/// The error returned when a byte sequence is not a valid name.
#[derive(Clone, Copy, Debug, PartialEq, Eq, Structural)]
pub struct InvalidName;

/// A validated DNS-like name, held as its normalized (lowercase) bytes.
#[derive(Clone, Debug, Eq, Hash)]
pub struct Name {
    bytes: Vec<u8>,
}

impl View for Name {
    type V = Seq<u8>;

    closed spec fn view(&self) -> Seq<u8> {
        self.bytes@
    }
}

impl PartialEq for Name {
    fn eq(&self, other: &Name) -> (r: bool) {
        if self.bytes.len() != other.bytes.len() {
            return false;
        }
        let n = self.bytes.len();
        let mut i: usize = 0;
        while i < n
            invariant
                0 <= i <= n,
                n == self.bytes@.len() == other.bytes@.len(),
                forall|k: int| 0 <= k < i ==> self.bytes@[k] == other.bytes@[k],
            decreases n - i,
        {
            if self.bytes[i] != other.bytes[i] {
                return false;
            }
            i = i + 1;
        }
        proof {
            assert(self.bytes@ =~= other.bytes@);
        }
        true
    }
}

impl vstd::std_specs::cmp::PartialEqSpecImpl for Name {
    open spec fn obeys_eq_spec() -> bool {
        true
    }

    open spec fn eq_spec(&self, other: &Name) -> bool {
        self@ == other@
    }
}

impl Name {
    /// The normalized bytes of the name.
    pub fn as_bytes(&self) -> (r: &[u8])
        ensures
            r@ == self@,
    {
        self.bytes.as_slice()
    }

    /// Validates a byte sequence as a DNS-like name, accepting uppercase
    /// letters and normalizing them to lowercase. Succeeds exactly when the
    /// lowercased input is a valid name.
    pub fn try_from(input: &[u8]) -> (r: Result<Name, InvalidName>)
        ensures
            match r {
                Ok(n) => n@ == to_lower(input@) && valid_name(n@),
                Err(_) => !valid_name(to_lower(input@)),
            },
    {
        let ghost low = to_lower(input@);
        let mut bytes: Vec<u8> = Vec::new();
        let n = input.len();
        let mut i: usize = 0;
        while i < n
            invariant
                0 <= i <= n,
                n == input@.len(),
                low == to_lower(input@),
                bytes@ == low.subrange(0, i as int),
            decreases n - i,
        {
            let c = input[i];
            let lc: u8 = if 0x41 <= c && c <= 0x5a {
                c + 0x20
            } else {
                c
            };
            bytes.push(lc);
            proof {
                assert(bytes@ =~= low.subrange(0, i + 1));
            }
            i = i + 1;
        }
        proof {
            assert(bytes@ =~= low);
        }
        let body_len: usize = if n > 0 && bytes[n - 1] == 0x2e {
            n - 1
        } else {
            n
        };
        let ghost b = strip_dot(low);
        proof {
            if n > 0 && is_dot(low[n - 1]) {
                assert(b =~= low.subrange(0, body_len as int));
            } else {
                assert(b =~= low.subrange(0, body_len as int));
            }
        }
        if body_len == 0 {
            return Err(InvalidName);
        }
        let mut charset_ok = true;
        let mut labels_ok = true;
        let mut hyphens_ok = true;
        let mut has_nondigit = false;
        let mut label_len: usize = 0;
        let ghost mut last_sep: int = -1;
        let mut idx: usize = 0;
        while idx < body_len
            invariant
                0 < body_len <= n,
                n == bytes@.len() == low.len(),
                bytes@ == low,
                b == strip_dot(low),
                b =~= low.subrange(0, body_len as int),
                b.len() == body_len,
                0 <= idx <= body_len,
                -1 <= last_sep < idx,
                is_sep(b, last_sep),
                dot_free(b, last_sep + 1, idx as int),
                label_len == idx - last_sep - 1,
                has_nondigit == exists|k: int|
                    last_sep < k < idx && !is_digit(#[trigger] b[k]) && !is_dot(b[k]),
                charset_ok ==> forall|k: int| 0 <= k < idx ==> is_name_byte(#[trigger] b[k]),
                !charset_ok ==> !all_name_bytes(b),
                labels_ok ==> forall|i2: int, j2: int|
                    #![trigger is_sep(b, i2), is_sep(b, j2)]
                    -1 <= i2 < j2 < idx && is_sep(b, i2) && is_sep(b, j2) && dot_free(
                        b,
                        i2 + 1,
                        j2,
                    ) ==> 1 <= j2 - i2 - 1 <= 63,
                !labels_ok ==> !labels_sized(b),
                hyphens_ok ==> forall|k: int|
                    0 <= k < idx - 1 && is_hyphen(#[trigger] b[k]) ==> 0 < k && !is_dot(b[k - 1])
                        && !is_dot(b[k + 1]),
                hyphens_ok && idx > 0 && is_hyphen(b[idx - 1]) ==> 0 < idx - 1 && !is_dot(
                    b[idx - 2],
                ),
                !hyphens_ok ==> !hyphens_inner(b),
            decreases body_len - idx,
        {
            let c = bytes[idx];
            assert(c == b[idx as int]);
            if !((0x61 <= c && c <= 0x7a) || (0x30 <= c && c <= 0x39) || c == 0x2d || c == 0x2e) {
                if charset_ok {
                    proof {
                        assert(!is_name_byte(b[idx as int]));
                        assert(!all_name_bytes(b));
                    }
                }
                charset_ok = false;
            }
            if c == 0x2e {
                proof {
                    assert(is_sep(b, idx as int));
                }
                if label_len == 0 || label_len > 63 {
                    if labels_ok {
                        proof {
                            assert(is_sep(b, last_sep) && is_sep(b, idx as int) && dot_free(
                                b,
                                last_sep + 1,
                                idx as int,
                            ));
                            assert(!labels_sized(b));
                        }
                    }
                    labels_ok = false;
                } else {
                    proof {
                        if labels_ok {
                            assert forall|i2: int, j2: int|
                                -1 <= i2 < j2 < idx + 1 && is_sep(b, i2) && is_sep(b, j2)
                                    && dot_free(b, i2 + 1, j2) implies 1 <= j2 - i2 - 1 <= 63 by {
                                if j2 == idx {
                                    if i2 < last_sep {
                                        assert(last_sep >= 0);
                                        assert(is_dot(b[last_sep]));
                                        assert(!dot_free(b, i2 + 1, j2));
                                    } else if i2 > last_sep {
                                        assert(is_dot(b[i2]));
                                        assert(!dot_free(b, last_sep + 1, idx as int));
                                    }
                                }
                            }
                        }
                    }
                }
                if idx > 0 && label_len > 0 && bytes[idx - 1] == 0x2d {
                    if hyphens_ok {
                        proof {
                            assert(is_hyphen(b[idx - 1]) && is_dot(b[idx as int]));
                            assert(!hyphens_inner(b));
                        }
                    }
                    hyphens_ok = false;
                }
                proof {
                    last_sep = idx as int;
                }
                label_len = 0;
                has_nondigit = false;
            } else {
                if c == 0x2d && (idx == 0 || bytes[idx - 1] == 0x2e) {
                    if hyphens_ok {
                        proof {
                            assert(is_hyphen(b[idx as int]));
                            assert(!hyphens_inner(b));
                        }
                    }
                    hyphens_ok = false;
                }
                if !(0x30 <= c && c <= 0x39) {
                    has_nondigit = true;
                }
                label_len = label_len + 1;
            }
            idx = idx + 1;
        }
        if label_len == 0 || label_len > 63 {
            if labels_ok {
                proof {
                    assert(is_sep(b, last_sep) && is_sep(b, body_len as int) && dot_free(
                        b,
                        last_sep + 1,
                        body_len as int,
                    ));
                    assert(!labels_sized(b));
                }
            }
            labels_ok = false;
        } else {
            proof {
                if labels_ok {
                    assert forall|i2: int, j2: int|
                        -1 <= i2 < j2 <= body_len && is_sep(b, i2) && is_sep(b, j2) && dot_free(
                            b,
                            i2 + 1,
                            j2,
                        ) implies 1 <= j2 - i2 - 1 <= 63 by {
                        if j2 == body_len {
                            if i2 < last_sep {
                                assert(last_sep >= 0);
                                assert(is_dot(b[last_sep]));
                                assert(!dot_free(b, i2 + 1, j2));
                            } else if i2 > last_sep {
                                assert(is_dot(b[i2]));
                                assert(!dot_free(b, last_sep + 1, body_len as int));
                            }
                        }
                    }
                    assert(labels_sized(b));
                }
            }
        }
        if bytes[body_len - 1] == 0x2d {
            if hyphens_ok {
                proof {
                    assert(is_hyphen(b[body_len - 1]));
                    assert(!hyphens_inner(b));
                }
            }
            hyphens_ok = false;
        } else {
            proof {
                if hyphens_ok {
                    assert forall|k: int|
                        0 <= k < body_len && is_hyphen(#[trigger] b[k]) implies 0 < k && !is_dot(
                        b[k - 1],
                    ) && k + 1 < body_len && !is_dot(b[k + 1]) by {
                        assert(k != body_len - 1);
                    }
                    assert(hyphens_inner(b));
                }
            }
        }
        proof {
            if has_nondigit {
                let k = choose|k: int|
                    last_sep < k < body_len && !is_digit(#[trigger] b[k]) && !is_dot(b[k]);
                assert(dot_free(b, k + 1, body_len as int));
                assert(last_label_not_numeric(b));
            } else {
                assert forall|k: int|
                    0 <= k < body_len implies !(!is_digit(#[trigger] b[k]) && !is_dot(b[k])
                    && dot_free(b, k + 1, body_len as int)) by {
                    if k > last_sep {
                        assert(!is_dot(b[k]));
                        assert(is_digit(b[k]) || is_dot(b[k]));
                    } else if k == last_sep {
                        assert(is_dot(b[k]));
                    } else {
                        assert(last_sep >= 0 && is_dot(b[last_sep]));
                        assert(k + 1 <= last_sep < body_len);
                        assert(!dot_free(b, k + 1, body_len as int));
                    }
                }
                assert(!last_label_not_numeric(b));
            }
        }
        if charset_ok && labels_ok && hyphens_ok && has_nondigit {
            proof {
                assert(all_name_bytes(b));
            }
            Ok(Name { bytes })
        } else {
            Err(InvalidName)
        }
    }
}

/// Law: a valid name is already normalized, so validating, lowercasing and
/// re-emitting it is a fixed point.
pub proof fn lemma_normalize_idempotent(s: Seq<u8>)
    requires
        valid_name(s),
    ensures
        to_lower(s) == s,
        valid_name(to_lower(s)),
{
    let b = strip_dot(s);
    assert forall|k: int| 0 <= k < s.len() implies lower_byte(#[trigger] s[k]) == s[k] by {
        if s.len() > 0 && is_dot(s[s.len() - 1]) && k == s.len() - 1 {
        } else {
            assert(b[k] == s[k]);
            assert(is_name_byte(s[k]));
        }
    }
    assert(to_lower(s) =~= s);
}

} // verus!
