//! The four character classes and the combined candidate pool.
//!
//! The classes come in a fixed order — lowercase, uppercase, digits,
//! symbols — and each one owns a fixed alphabet of printable ASCII bytes.
//! A policy byte enables a subset of the classes; the pool is the
//! concatenation of the enabled alphabets in class order.

use vstd::prelude::*;

verus! {

/// Length of the alphabet of a class (lowercase, uppercase, digits, symbols).
pub open spec fn class_len(class: int) -> int {
    if class == 0 {
        26
    } else if class == 1 {
        26
    } else if class == 2 {
        10
    } else {
        32
    }
}

/// Byte at position `idx` of the alphabet of `class`.
///
/// Lowercase and uppercase letters and digits are contiguous in ASCII; the
/// symbol alphabet is the 32 printable ASCII punctuation characters in code
/// order, which form four contiguous runs.
pub open spec fn class_byte(class: int, idx: int) -> u8 {
    if class == 0 {
        (97 + idx) as u8  // 'a' ..= 'z'
    } else if class == 1 {
        (65 + idx) as u8  // 'A' ..= 'Z'
    } else if class == 2 {
        (48 + idx) as u8  // '0' ..= '9'
    } else if idx < 15 {
        (33 + idx) as u8  // '!' ..= '/'
    } else if idx < 22 {
        (43 + idx) as u8  // ':' ..= '@'
    } else if idx < 28 {
        (69 + idx) as u8  // '[' ..= '`'
    } else {
        (95 + idx) as u8  // '{' ..= '~'
    }
}

/// The alphabet of a class as a byte sequence.
pub open spec fn class_seq(class: int) -> Seq<u8> {
    Seq::new(class_len(class) as nat, |i: int| class_byte(class, i))
}

/// Does the policy byte `rule` enable `class`?  Only bits 0 to 3 count.
pub open spec fn class_enabled(rule: u8, class: int) -> bool {
    rule & (1u8 << (class as u8)) != 0
}

/// Number of enabled classes among `class .. 4`.
pub open spec fn enabled_count_from(rule: u8, class: int) -> int
    decreases 4 - class,
{
    if class >= 4 {
        0
    } else {
        (if class_enabled(rule, class) {
            1int
        } else {
            0int
        }) + enabled_count_from(rule, class + 1)
    }
}

/// Number of enabled classes.
pub open spec fn enabled_count(rule: u8) -> int {
    enabled_count_from(rule, 0)
}

/// Concatenation of the enabled alphabets among `class .. 4`, in class order.
pub open spec fn pool_from(rule: u8, class: int) -> Seq<u8>
    decreases 4 - class,
{
    if class >= 4 {
        Seq::empty()
    } else if class_enabled(rule, class) {
        class_seq(class) + pool_from(rule, class + 1)
    } else {
        pool_from(rule, class + 1)
    }
}

/// The combined candidate pool of the policy: all enabled alphabets, in
/// class order.
pub open spec fn pool_seq(rule: u8) -> Seq<u8> {
    pool_from(rule, 0)
}

/// Does `b` belong to the alphabet of `class`?
pub open spec fn byte_in_class(b: u8, class: int) -> bool {
    class_seq(class).contains(b)
}

/// Membership in a class alphabet, written as ASCII ranges.
pub open spec fn class_range(b: u8, class: int) -> bool {
    if class == 0 {
        97 <= b <= 122
    } else if class == 1 {
        65 <= b <= 90
    } else if class == 2 {
        48 <= b <= 57
    } else {
        33 <= b <= 47 || 58 <= b <= 64 || 91 <= b <= 96 || 123 <= b <= 126
    }
}

/// A class alphabet holds exactly the bytes of its ASCII ranges.
pub proof fn lemma_class_ranges(b: u8, class: int)
    requires
        0 <= class < 4,
    ensures
        byte_in_class(b, class) <==> class_range(b, class),
{
    if class_range(b, class) {
        let idx: int = if class == 0 {
            b - 97
        } else if class == 1 {
            b - 65
        } else if class == 2 {
            b - 48
        } else if b <= 47 {
            b - 33
        } else if b <= 64 {
            b - 43
        } else if b <= 96 {
            b - 69
        } else {
            b - 95
        };
        assert(class_seq(class)[idx] == b);
    }
}

/// The class a byte belongs to, or -1 when it belongs to no alphabet.
/// The alphabets are disjoint, so this is well defined.
pub open spec fn byte_class(b: u8) -> int {
    if 97 <= b <= 122 {
        0
    } else if 65 <= b <= 90 {
        1
    } else if 48 <= b <= 57 {
        2
    } else if 33 <= b <= 47 || 58 <= b <= 64 || 91 <= b <= 96 || 123 <= b <= 126 {
        3
    } else {
        -1
    }
}

/// A byte belongs to the alphabet of `class` exactly when `class` is its
/// class.
pub proof fn lemma_byte_class(b: u8, class: int)
    requires
        0 <= class < 4,
    ensures
        byte_in_class(b, class) <==> byte_class(b) == class,
{
    lemma_class_ranges(b, class);
}

/// The pool of the classes `class .. 4` holds exactly the bytes of the
/// enabled alphabets among them.
pub proof fn lemma_pool_from_membership(rule: u8, class: int, b: u8)
    ensures
        pool_from(rule, class).contains(b) <==> exists|c: int|
            class <= c < 4 && class_enabled(rule, c) && byte_in_class(b, c),
    decreases 4 - class,
{
    if class < 4 {
        lemma_pool_from_membership(rule, class + 1, b);
        if class_enabled(rule, class) {
            let tail = pool_from(rule, class + 1);
            let head = class_seq(class);
            assert(pool_from(rule, class) == head + tail);
            if (head + tail).contains(b) {
                let i = choose|i: int| 0 <= i < (head + tail).len() && (head + tail)[i] == b;
                if i < head.len() {
                    assert(head[i] == b);
                } else {
                    assert(tail[i - head.len()] == b);
                }
            }
            if head.contains(b) {
                let i = choose|i: int| 0 <= i < head.len() && head[i] == b;
                assert((head + tail)[i] == b);
            }
            if tail.contains(b) {
                let i = choose|i: int| 0 <= i < tail.len() && tail[i] == b;
                assert((head + tail)[head.len() + i] == b);
            }
        }
    }
}

/// Pool membership: a byte is in the pool of `rule` exactly when some
/// enabled class contains it.
pub proof fn lemma_pool_membership(rule: u8, b: u8)
    ensures
        pool_seq(rule).contains(b) <==> exists|c: int|
            0 <= c < 4 && class_enabled(rule, c) && byte_in_class(b, c),
{
    lemma_pool_from_membership(rule, 0, b);
}

/// The pool length is the sum of the enabled alphabet lengths; in
/// particular it is positive as soon as one class is enabled.
pub proof fn lemma_pool_from_len(rule: u8, class: int)
    requires
        0 <= class,
    ensures
        pool_from(rule, class).len() <= (if class == 0 {
            94int
        } else if class == 1 {
            68int
        } else if class == 2 {
            42int
        } else if class == 3 {
            32int
        } else {
            0int
        }),
        enabled_count_from(rule, class) >= 1 ==> pool_from(rule, class).len() >= 10,
    decreases 4 - class,
{
    if class < 4 {
        lemma_pool_from_len(rule, class + 1);
    }
}

/// Exact length of the alphabet of `class`.
pub fn class_len_x(class: u8) -> (n: u8)
    requires
        class < 4,
    ensures
        n as int == class_len(class as int),
{
    if class == 0 {
        26
    } else if class == 1 {
        26
    } else if class == 2 {
        10
    } else {
        32
    }
}

/// Byte at position `idx` of the alphabet of `class`.
pub fn class_byte_x(class: u8, idx: u8) -> (b: u8)
    requires
        class < 4,
        (idx as int) < class_len(class as int),
    ensures
        b == class_byte(class as int, idx as int),
{
    if class == 0 {
        97 + idx
    } else if class == 1 {
        65 + idx
    } else if class == 2 {
        48 + idx
    } else if idx < 15 {
        33 + idx
    } else if idx < 22 {
        43 + idx
    } else if idx < 28 {
        69 + idx
    } else {
        95 + idx
    }
}

/// Count the enabled classes of a policy byte.
pub fn count_enabled_classes(rule: u8) -> (n: u8)
    ensures
        n as int == enabled_count(rule),
        n <= 4,
{
    let mut n: u8 = 0;
    let mut class: u8 = 0;
    while class < 4
        invariant
            class <= 4,
            n as int == enabled_count(rule) - enabled_count_from(rule, class as int),
            n <= class,
        decreases 4 - class,
    {
        if rule & (1u8 << class) != 0 {
            n += 1;
        }
        class += 1;
    }
    n
}

/// Build the candidate pool of a policy: the enabled alphabets concatenated
/// in class order.
pub fn build_pool(rule: u8) -> (pool: Vec<u8>)
    ensures
        pool@ == pool_seq(rule),
{
    let mut pool: Vec<u8> = Vec::new();
    let mut class: u8 = 0;
    while class < 4
        invariant
            class <= 4,
            pool_seq(rule) == pool@ + pool_from(rule, class as int),
        decreases 4 - class,
    {
        if rule & (1u8 << class) != 0 {
            let len = class_len_x(class);
            let ghost pool0 = pool@;
            let mut idx: u8 = 0;
            while idx < len
                invariant
                    idx <= len,
                    class < 4,
                    len as int == class_len(class as int),
                    pool@ == pool0 + class_seq(class as int).take(idx as int),
                decreases len - idx,
            {
                pool.push(class_byte_x(class, idx));
                proof {
                    assert(class_seq(class as int).take(idx + 1) =~= class_seq(
                        class as int,
                    ).take(idx as int).push(class_byte(class as int, idx as int)));
                }
                idx += 1;
            }
            proof {
                assert(class_seq(class as int).take(len as int) =~= class_seq(class as int));
                assert(pool@ + pool_from(rule, class + 1) =~= pool0 + pool_from(
                    rule,
                    class as int,
                ));
            }
        }
        class += 1;
    }
    proof {
        assert(pool@ + pool_from(rule, 4) =~= pool@);
    }
    pool
}

} // verus!
