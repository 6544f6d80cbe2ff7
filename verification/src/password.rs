//! Positional encoding: from a 256-bit entropy value to a password.
//!
//! Three passes consume the entropy by division with remainder.  First the
//! free characters are drawn from the combined candidate pool; then one
//! mandatory character is drawn from each enabled class, in class order;
//! finally each mandatory character is inserted at a drawn position of the
//! growing sequence.  The whole computation is a function of the entropy
//! value, the policy byte and the requested length alone.

use vstd::prelude::*;
use vstd::seq_lib::to_multiset_insert;
use vstd::seq_lib::group_to_multiset_ensures;
use vstd::multiset::group_multiset_axioms;
use vstd::multiset::Multiset;
use crate::alphabet::byte_class;
use crate::alphabet::byte_in_class;
use crate::alphabet::lemma_byte_class;
use crate::alphabet::build_pool;
use crate::alphabet::class_byte_x;
use crate::alphabet::class_enabled;
use crate::alphabet::class_len;
use crate::alphabet::class_len_x;
use crate::alphabet::class_seq;
use crate::alphabet::count_enabled_classes;
use crate::alphabet::enabled_count;
use crate::alphabet::enabled_count_from;
use crate::alphabet::lemma_pool_from_len;
use crate::alphabet::lemma_pool_membership;
use crate::alphabet::pool_seq;
use crate::entropy::Entropy;

verus! {

/// A request the deriver can serve: length at least four, at least one
/// enabled class, and room for at least one freely drawn character.
pub open spec fn valid_rule_len(rule: u8, max_len: u8) -> bool {
    &&& 4 <= max_len
    &&& 1 <= enabled_count(rule)
    &&& enabled_count(rule) < max_len as int
}

/// Every character of `s` belongs to some class of `lo .. 4` that `rule`
/// enables.
pub open spec fn chars_from_enabled(rule: u8, s: Seq<u8>, lo: int) -> bool {
    forall|i: int|
        0 <= i < s.len() ==> lo <= byte_class(#[trigger] s[i]) < 4 && class_enabled(
            rule,
            byte_class(s[i]),
        )
}

/// Every class of `lo .. 4` that `rule` enables has a character in `s`.
pub open spec fn covers_enabled(rule: u8, s: Seq<u8>, lo: int) -> bool {
    forall|c: int|
        lo <= c < 4 && #[trigger] class_enabled(rule, c) ==> exists|i: int|
            0 <= i < s.len() && byte_class(#[trigger] s[i]) == c
}

/// Every character of `s` is printable ASCII.
pub open spec fn all_printable(s: Seq<u8>) -> bool {
    forall|i: int| 0 <= i < s.len() ==> 33 <= #[trigger] s[i] <= 126
}

/// The free pass: draw `n` characters from the candidate pool, first drawn
/// first.  Yields the drawn sequence and the remaining entropy.
pub open spec fn spec_fill(e: nat, rule: u8, n: nat) -> (Seq<u8>, nat)
    decreases n,
{
    if n == 0 {
        (Seq::empty(), e)
    } else {
        let p = pool_seq(rule);
        let len = p.len() as nat;
        let rest = spec_fill(e / len, rule, (n - 1) as nat);
        (seq![p[(e % len) as int]] + rest.0, rest.1)
    }
}

/// The mandatory pass: one character from the alphabet of each enabled
/// class among `class .. 4`, in class order.
pub open spec fn spec_mandatory(e: nat, rule: u8, class: int) -> (Seq<u8>, nat)
    decreases 4 - class,
{
    if class >= 4 {
        (Seq::empty(), e)
    } else if class_enabled(rule, class) {
        let len = class_len(class) as nat;
        let rest = spec_mandatory(e / len, rule, class + 1);
        (seq![class_seq(class)[(e % len) as int]] + rest.0, rest.1)
    } else {
        spec_mandatory(e, rule, class + 1)
    }
}

/// The scatter pass: insert each pending character at a drawn position of
/// the accumulated sequence, which grows by one at each step.
pub open spec fn spec_scatter(e: nat, acc: Seq<u8>, pending: Seq<u8>) -> Seq<u8>
    decreases pending.len(),
{
    if pending.len() == 0 {
        acc
    } else {
        let len = acc.len() as nat;
        spec_scatter(e / len, acc.insert((e % len) as int, pending[0]), pending.drop_first())
    }
}

/// The password derived from an entropy value, a policy and a length.
pub open spec fn spec_derive(e: nat, rule: u8, max_len: u8) -> Seq<u8> {
    let n = (max_len - enabled_count(rule)) as nat;
    let fill = spec_fill(e, rule, n);
    let mand = spec_mandatory(fill.1, rule, 0);
    spec_scatter(mand.1, fill.0, mand.0)
}

/// The free pass draws exactly `n` characters, all from enabled classes.
proof fn lemma_fill_props(e: nat, rule: u8, n: nat)
    requires
        pool_seq(rule).len() > 0,
    ensures
        spec_fill(e, rule, n).0.len() == n,
        chars_from_enabled(rule, spec_fill(e, rule, n).0, 0),
    decreases n,
{
    let whole = spec_fill(e, rule, n).0;
    if n == 0 {
        assert(chars_from_enabled(rule, whole, 0));
    } else {
        let p = pool_seq(rule);
        let len = p.len() as nat;
        lemma_fill_props(e / len, rule, (n - 1) as nat);
        let rest = spec_fill(e / len, rule, (n - 1) as nat).0;
        let b = p[(e % len) as int];
        assert(whole == seq![b] + rest);
        assert(chars_from_enabled(rule, rest, 0));
        assert forall|i: int| 0 <= i < whole.len() implies 0 <= byte_class(
            #[trigger] whole[i],
        ) < 4 && class_enabled(rule, byte_class(whole[i])) by {
            if i == 0 {
                assert(whole[0] == b);
                assert(p.contains(b));
                lemma_pool_membership(rule, b);
                let c = choose|c: int|
                    0 <= c < 4 && class_enabled(rule, c) && byte_in_class(b, c);
                lemma_byte_class(b, c);
            } else {
                assert(whole[i] == rest[i - 1]);
            }
        }
        assert(chars_from_enabled(rule, whole, 0));
    }
}

/// The mandatory pass draws one character per enabled class of
/// `class .. 4`: each drawn character belongs to an enabled class there,
/// and each enabled class there is hit.
proof fn lemma_mandatory_props(e: nat, rule: u8, class: int)
    requires
        0 <= class <= 4,
    ensures
        spec_mandatory(e, rule, class).0.len() == enabled_count_from(rule, class),
        chars_from_enabled(rule, spec_mandatory(e, rule, class).0, class),
        covers_enabled(rule, spec_mandatory(e, rule, class).0, class),
    decreases 4 - class,
{
    let whole = spec_mandatory(e, rule, class).0;
    if class >= 4 {
        assert(chars_from_enabled(rule, whole, class));
        assert(covers_enabled(rule, whole, class));
    } else if class_enabled(rule, class) {
        let len = class_len(class) as nat;
        lemma_mandatory_props(e / len, rule, class + 1);
        let rest = spec_mandatory(e / len, rule, class + 1).0;
        let b = class_seq(class)[(e % len) as int];
        assert(whole == seq![b] + rest);
        assert(chars_from_enabled(rule, rest, class + 1));
        assert(covers_enabled(rule, rest, class + 1));
        assert(class_seq(class).contains(b));
        assert(byte_in_class(b, class));
        lemma_byte_class(b, class);
        assert forall|i: int| 0 <= i < whole.len() implies class <= byte_class(
            #[trigger] whole[i],
        ) < 4 && class_enabled(rule, byte_class(whole[i])) by {
            if i == 0 {
                assert(whole[0] == b);
            } else {
                assert(whole[i] == rest[i - 1]);
            }
        }
        assert(chars_from_enabled(rule, whole, class));
        assert forall|c: int| class <= c < 4 && #[trigger] class_enabled(rule, c) implies exists|
            i: int,
        | 0 <= i < whole.len() && byte_class(whole[i]) == c by {
            if c == class {
                assert(whole[0] == b);
                assert(0 <= 0 < whole.len() && byte_class(whole[0]) == c);
            } else {
                let i = choose|i: int| 0 <= i < rest.len() && byte_class(#[trigger] rest[i]) == c;
                assert(whole[i + 1] == rest[i]);
                assert(0 <= i + 1 < whole.len() && byte_class(whole[i + 1]) == c);
            }
        }
        assert(covers_enabled(rule, whole, class));
    } else {
        lemma_mandatory_props(e, rule, class + 1);
        let rest = spec_mandatory(e, rule, class + 1).0;
        assert(whole == rest);
        assert(chars_from_enabled(rule, rest, class + 1));
        assert(covers_enabled(rule, rest, class + 1));
        assert forall|i: int| 0 <= i < whole.len() implies class <= byte_class(
            #[trigger] whole[i],
        ) < 4 && class_enabled(rule, byte_class(whole[i])) by {
            assert(whole[i] == rest[i]);
        }
        assert(chars_from_enabled(rule, whole, class));
        assert forall|c: int| class <= c < 4 && #[trigger] class_enabled(rule, c) implies exists|
            i: int,
        | 0 <= i < whole.len() && byte_class(whole[i]) == c by {
            assert(c != class);
            let i = choose|i: int| 0 <= i < rest.len() && byte_class(#[trigger] rest[i]) == c;
            assert(0 <= i < whole.len() && byte_class(whole[i]) == c);
        }
        assert(covers_enabled(rule, whole, class));
    }
}

/// The scatter pass only rearranges: the result holds exactly the
/// accumulated and the pending characters.
proof fn lemma_scatter_multiset(e: nat, acc: Seq<u8>, pending: Seq<u8>)
    requires
        acc.len() > 0 || pending.len() == 0,
    ensures
        spec_scatter(e, acc, pending).len() == acc.len() + pending.len(),
        spec_scatter(e, acc, pending).to_multiset() == acc.to_multiset().add(
            pending.to_multiset(),
        ),
    decreases pending.len(),
{
    broadcast use group_to_multiset_ensures;
    broadcast use group_multiset_axioms;

    if pending.len() == 0 {
        assert(pending =~= Seq::<u8>::empty());
        assert(pending.to_multiset() =~= Multiset::<u8>::empty());
        assert(acc.to_multiset().add(pending.to_multiset()) =~= acc.to_multiset());
    } else {
        let len = acc.len() as nat;
        let idx = (e % len) as int;
        let acc2 = acc.insert(idx, pending[0]);
        lemma_scatter_multiset(e / len, acc2, pending.drop_first());
        to_multiset_insert(acc, idx, pending[0]);
        assert(pending.drop_first().insert(0, pending[0]) =~= pending);
        to_multiset_insert(pending.drop_first(), 0, pending[0]);
        assert(acc.to_multiset().insert(pending[0]).add(pending.drop_first().to_multiset())
            =~= acc.to_multiset().add(pending.drop_first().to_multiset().insert(pending[0])));
    }
}

/// Scattering keeps membership: the result contains a byte exactly when one
/// of the two inputs does.
proof fn lemma_scatter_contains(e: nat, acc: Seq<u8>, pending: Seq<u8>)
    requires
        acc.len() > 0 || pending.len() == 0,
    ensures
        spec_scatter(e, acc, pending).len() == acc.len() + pending.len(),
        forall|x: u8|
            #[trigger] spec_scatter(e, acc, pending).contains(x) <==> acc.contains(x)
                || pending.contains(x),
{
    broadcast use group_to_multiset_ensures;
    broadcast use group_multiset_axioms;

    lemma_scatter_multiset(e, acc, pending);
    let out = spec_scatter(e, acc, pending);
    assert forall|x: u8| #[trigger] out.contains(x) <==> acc.contains(x) || pending.contains(
        x,
    ) by {
        assert(out.contains(x) <==> out.to_multiset().count(x) > 0);
        assert(acc.contains(x) <==> acc.to_multiset().count(x) > 0);
        assert(pending.contains(x) <==> pending.to_multiset().count(x) > 0);
        assert(out.to_multiset().count(x) == acc.to_multiset().count(x)
            + pending.to_multiset().count(x));
    }
}

/// Everything the derived password guarantees: exact length, all characters
/// from enabled alphabets, at least one character per enabled class, all
/// printable.
pub proof fn lemma_derive_props(e: nat, rule: u8, max_len: u8)
    requires
        valid_rule_len(rule, max_len),
    ensures
        spec_derive(e, rule, max_len).len() == max_len,
        chars_from_enabled(rule, spec_derive(e, rule, max_len), 0),
        covers_enabled(rule, spec_derive(e, rule, max_len), 0),
        all_printable(spec_derive(e, rule, max_len)),
{
    lemma_pool_from_len(rule, 0);
    let n = (max_len - enabled_count(rule)) as nat;
    let fill = spec_fill(e, rule, n).0;
    let e1 = spec_fill(e, rule, n).1;
    let mand = spec_mandatory(e1, rule, 0).0;
    let e2 = spec_mandatory(e1, rule, 0).1;
    let out = spec_derive(e, rule, max_len);
    lemma_fill_props(e, rule, n);
    lemma_mandatory_props(e1, rule, 0);
    lemma_scatter_contains(e2, fill, mand);
    assert(out == spec_scatter(e2, fill, mand));
    assert(out.len() == max_len);
    assert(chars_from_enabled(rule, fill, 0));
    assert(chars_from_enabled(rule, mand, 0));
    assert(covers_enabled(rule, mand, 0));
    // Every character of the result was drawn in one of the two passes.
    assert forall|i: int| 0 <= i < out.len() implies 0 <= byte_class(#[trigger] out[i]) < 4
        && class_enabled(rule, byte_class(out[i])) by {
        let x = out[i];
        assert(out.contains(x));
        if fill.contains(x) {
            let j = choose|j: int| 0 <= j < fill.len() && #[trigger] fill[j] == x;
            assert(0 <= byte_class(fill[j]) < 4 && class_enabled(rule, byte_class(fill[j])));
        } else {
            assert(mand.contains(x));
            let j = choose|j: int| 0 <= j < mand.len() && #[trigger] mand[j] == x;
            assert(0 <= byte_class(mand[j]) < 4 && class_enabled(rule, byte_class(mand[j])));
        }
    }
    assert(chars_from_enabled(rule, out, 0));
    // Each enabled class is represented: its mandatory character survives.
    assert forall|c: int| 0 <= c < 4 && #[trigger] class_enabled(rule, c) implies exists|i: int|
        0 <= i < out.len() && byte_class(out[i]) == c by {
        let j = choose|j: int| 0 <= j < mand.len() && byte_class(#[trigger] mand[j]) == c;
        let x = mand[j];
        assert(mand.contains(x));
        assert(out.contains(x));
        let i = choose|i: int| 0 <= i < out.len() && #[trigger] out[i] == x;
        assert(0 <= i < out.len() && byte_class(out[i]) == c);
    }
    assert(covers_enabled(rule, out, 0));
    // All alphabets are printable ASCII.
    assert forall|i: int| 0 <= i < out.len() implies 33 <= #[trigger] out[i] <= 126 by {
        assert(0 <= byte_class(out[i]) < 4);
    }
    assert(all_printable(out));
}

/// A character of a class the policy disables never appears: the character
/// classes are disjoint, and every character comes from an enabled class.
pub proof fn lemma_disabled_class_absent(rule: u8, s: Seq<u8>, c: int, i: int)
    requires
        chars_from_enabled(rule, s, 0),
        0 <= c < 4,
        !class_enabled(rule, c),
        0 <= i < s.len(),
    ensures
        !byte_in_class(s[i], c),
{
    lemma_byte_class(s[i], c);
}

/// Derive the password bytes from an entropy value, a policy and a length.
///
/// The scatter pass draws an insertion position from the current length of
/// the sequence, so at least one free character must already be present:
/// hence the requirement that the enabled classes number fewer than
/// `max_len`.
pub fn derive_password(entropy: Entropy, rule: u8, max_len: u8) -> (pw: Vec<u8>)
    requires
        valid_rule_len(rule, max_len),
    ensures
        pw@ == spec_derive(entropy.as_nat(), rule, max_len),
        pw@.len() == max_len,
        chars_from_enabled(rule, pw@, 0),
        covers_enabled(rule, pw@, 0),
        all_printable(pw@),
{
    let ghost e0 = entropy.as_nat();
    let pool = build_pool(rule);
    proof {
        lemma_pool_from_len(rule, 0);
    }
    let pool_len: u64 = pool.len() as u64;
    let nc = count_enabled_classes(rule);
    let fill_n: u8 = max_len - nc;
    let mut e = entropy;
    let mut pw: Vec<u8> = Vec::new();
    let mut i: u8 = 0;
    while i < fill_n
        invariant
            i <= fill_n,
            pool@ == pool_seq(rule),
            pool_len == pool@.len(),
            10 <= pool_len <= 94,
            pw@.len() == i as nat,
            spec_fill(e0, rule, fill_n as nat).0 == pw@ + spec_fill(
                e.as_nat(),
                rule,
                (fill_n - i) as nat,
            ).0,
            spec_fill(e0, rule, fill_n as nat).1 == spec_fill(
                e.as_nat(),
                rule,
                (fill_n - i) as nat,
            ).1,
        decreases fill_n - i,
    {
        let ghost epre = e.as_nat();
        let (q, r) = e.div_rem(pool_len);
        pw.push(pool[r as usize]);
        e = q;
        proof {
            let len = pool_seq(rule).len() as nat;
            let rest = spec_fill(e.as_nat(), rule, (fill_n - i - 1) as nat);
            assert(spec_fill(epre, rule, (fill_n - i) as nat).0 == seq![
                pool_seq(rule)[(epre % len) as int],
            ] + rest.0);
            assert(pool_seq(rule)[(epre % len) as int] == pool@[r as int]);
            assert(pw@.drop_last() + (seq![pool_seq(rule)[(epre % len) as int]] + rest.0) =~= (
            pw@.drop_last() + seq![pool_seq(rule)[(epre % len) as int]]) + rest.0);
        }
        i += 1;
    }
    proof {
        assert(spec_fill(e.as_nat(), rule, 0).0 =~= Seq::<u8>::empty());
        assert(pw@ + Seq::<u8>::empty() =~= pw@);
        assert(pw@ == spec_fill(e0, rule, fill_n as nat).0);
        assert(e.as_nat() == spec_fill(e0, rule, fill_n as nat).1);
    }
    let ghost e1 = e.as_nat();
    let mut mand: Vec<u8> = Vec::new();
    let mut class: u8 = 0;
    while class < 4
        invariant
            class <= 4,
            spec_mandatory(e1, rule, 0).0 == mand@ + spec_mandatory(
                e.as_nat(),
                rule,
                class as int,
            ).0,
            spec_mandatory(e1, rule, 0).1 == spec_mandatory(e.as_nat(), rule, class as int).1,
        decreases 4 - class,
    {
        if rule & (1u8 << class) != 0 {
            proof {
                assert(class_enabled(rule, class as int));
            }
            let ghost epre = e.as_nat();
            let clen = class_len_x(class);
            let (q, r) = e.div_rem(clen as u64);
            let cb = class_byte_x(class, r as u8);
            mand.push(cb);
            e = q;
            proof {
                let len = class_len(class as int) as nat;
                let rest = spec_mandatory(e.as_nat(), rule, class as int + 1);
                assert(spec_mandatory(epre, rule, class as int).0 == seq![
                    class_seq(class as int)[(epre % len) as int],
                ] + rest.0);
                assert(class_seq(class as int)[(epre % len) as int] == cb);
                assert(mand@.drop_last() + (seq![class_seq(class as int)[(epre % len) as int]]
                    + rest.0) =~= (mand@.drop_last() + seq![
                    class_seq(class as int)[(epre % len) as int],
                ]) + rest.0);
            }
        } else {
            proof {
                assert(!class_enabled(rule, class as int));
            }
        }
        class += 1;
    }
    proof {
        assert(spec_mandatory(e.as_nat(), rule, 4).0 =~= Seq::<u8>::empty());
        assert(mand@ + Seq::<u8>::empty() =~= mand@);
        assert(mand@ == spec_mandatory(e1, rule, 0).0);
        assert(e.as_nat() == spec_mandatory(e1, rule, 0).1);
        lemma_mandatory_props(e1, rule, 0);
        lemma_fill_props(e0, rule, fill_n as nat);
    }
    let ghost e2 = e.as_nat();
    let ghost fill0 = pw@;
    let ghost mand0 = mand@;
    let mand_n = mand.len();
    proof {
        assert(mand0.skip(0) =~= mand0);
        assert(fill_n as int + mand_n as int == max_len as int);
    }
    let mut j: usize = 0;
    while j < mand_n
        invariant
            j <= mand_n,
            mand_n == mand@.len(),
            mand@ == mand0,
            1 <= fill_n,
            fill_n as int + mand_n as int == max_len as int,
            pw@.len() == fill_n + j,
            spec_scatter(e2, fill0, mand0) == spec_scatter(e.as_nat(), pw@, mand0.skip(j as int)),
        decreases mand_n - j,
    {
        let ghost epre = e.as_nat();
        let plen: u64 = pw.len() as u64;
        let (q, r) = e.div_rem(plen);
        pw.insert(r as usize, mand[j]);
        e = q;
        proof {
            let pending = mand0.skip(j as int);
            assert(pending[0] == mand0[j as int]);
            assert(pending.drop_first() =~= mand0.skip(j as int + 1));
        }
        j += 1;
    }
    proof {
        assert(mand0.skip(mand_n as int) =~= Seq::<u8>::empty());
        assert(spec_scatter(e.as_nat(), pw@, Seq::<u8>::empty()) == pw@);
        assert(pw@ == spec_derive(e0, rule, max_len));
        lemma_derive_props(e0, rule, max_len);
    }
    pw
}

} // verus!
