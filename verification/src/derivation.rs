//! Deterministic derivation of a multisignature account identifier from a
//! threshold and a set of member identifiers: sort the members
//! byte-lexicographically, lay out the domain literal, the length-prefixed
//! member list and the little-endian threshold, and take the digest.
use vstd::prelude::*;

verus! {

use crate::account::RawAccountId;
use crate::hashing::blake2_256;
use crate::hashing::blake2_256_of;
use vstd::multiset::Multiset;
use vstd::relations::sorted_by;
use vstd::relations::total_ordering;
use vstd::seq_lib::lemma_sorted_unique;

/// Byte-lexicographic order on byte strings; a proper prefix comes first.
pub open spec fn lex_le(a: Seq<u8>, b: Seq<u8>) -> bool
    decreases a.len(),
{
    if a.len() == 0 {
        true
    } else if b.len() == 0 {
        false
    } else if a.first() < b.first() {
        true
    } else if a.first() > b.first() {
        false
    } else {
        lex_le(a.drop_first(), b.drop_first())
    }
}

/// The order as a value, for the sorting functions.
pub open spec fn lex_leq_fn() -> spec_fn(Seq<u8>, Seq<u8>) -> bool {
    |a: Seq<u8>, b: Seq<u8>| lex_le(a, b)
}

proof fn lemma_lex_refl(a: Seq<u8>)
    ensures
        lex_le(a, a),
    decreases a.len(),
{
    if a.len() > 0 {
        lemma_lex_refl(a.drop_first());
    }
}

proof fn lemma_lex_connected(a: Seq<u8>, b: Seq<u8>)
    ensures
        lex_le(a, b) || lex_le(b, a),
    decreases a.len(),
{
    if a.len() > 0 && b.len() > 0 && a.first() == b.first() {
        lemma_lex_connected(a.drop_first(), b.drop_first());
    }
}

proof fn lemma_lex_antisym(a: Seq<u8>, b: Seq<u8>)
    requires
        lex_le(a, b),
        lex_le(b, a),
    ensures
        a == b,
    decreases a.len(),
{
    if a.len() == 0 {
        assert(b.len() == 0);
        assert(a =~= b);
    } else {
        assert(b.len() > 0);
        assert(a.first() == b.first());
        lemma_lex_antisym(a.drop_first(), b.drop_first());
        assert forall|i: int| 0 <= i < a.len() implies a[i] == b[i] by {
            if i > 0 {
                assert(a.drop_first()[i - 1] == a[i]);
                assert(b.drop_first()[i - 1] == b[i]);
            }
        }
        assert(a =~= b);
    }
}

proof fn lemma_lex_trans(a: Seq<u8>, b: Seq<u8>, c: Seq<u8>)
    requires
        lex_le(a, b),
        lex_le(b, c),
    ensures
        lex_le(a, c),
    decreases a.len(),
{
    if a.len() > 0 {
        assert(b.len() > 0);
        assert(c.len() > 0);
        if a.first() == b.first() && b.first() == c.first() {
            lemma_lex_trans(a.drop_first(), b.drop_first(), c.drop_first());
        }
    }
}

/// Byte-lexicographic order is a total order.
pub proof fn lemma_lex_total_ordering()
    ensures
        total_ordering(lex_leq_fn()),
{
    let leq = lex_leq_fn();
    assert forall|a: Seq<u8>| #[trigger] leq(a, a) by {
        lemma_lex_refl(a);
    }
    assert forall|a: Seq<u8>, b: Seq<u8>| #[trigger] leq(a, b) && #[trigger] leq(b, a) implies a
        == b by {
        lemma_lex_antisym(a, b);
    }
    assert forall|a: Seq<u8>, b: Seq<u8>, c: Seq<u8>|
        #[trigger] leq(a, b) && #[trigger] leq(b, c) implies leq(a, c) by {
        lemma_lex_trans(a, b, c);
    }
    assert forall|a: Seq<u8>, b: Seq<u8>| #[trigger] leq(a, b) || #[trigger] leq(b, a) by {
        lemma_lex_connected(a, b);
    }
}

/// The byte sequences of a list of identifiers.
pub open spec fn views_of(s: Seq<RawAccountId>) -> Seq<Seq<u8>> {
    s.map_values(|a: RawAccountId| a@)
}

/// The members in ascending byte-lexicographic order.
pub open spec fn sort_views(s: Seq<Seq<u8>>) -> Seq<Seq<u8>> {
    s.sort_by(lex_leq_fn())
}

/// Whether `a` orders before `b` byte-lexicographically.
#[verifier::loop_isolation(false)]
pub fn account_le(a: &RawAccountId, b: &RawAccountId) -> (r: bool)
    ensures
        r == lex_le(a@, b@),
{
    let an = a.as_slice().len();
    let bn = b.as_slice().len();
    let n = if an < bn {
        an
    } else {
        bn
    };
    let mut i: usize = 0;
    while i < n
        invariant
            i <= n,
            forall|j: int| 0 <= j < i ==> a@[j] == b@[j],
        decreases n - i,
    {
        let ab = a.byte_at(i);
        let bb = b.byte_at(i);
        proof {
            lemma_lex_skip(a@, b@, i as int);
        }
        if ab < bb {
            return true;
        }
        if ab > bb {
            return false;
        }
        i += 1;
    }
    proof {
        lemma_lex_skip(a@, b@, n as int);
        if an <= bn {
            assert(a@.skip(n as int).len() == 0);
        } else {
            assert(b@.skip(n as int).len() == 0);
            assert(a@.skip(n as int).len() > 0);
        }
    }
    an <= bn
}

/// Two sequences that agree below `i` compare as their tails from `i` do.
proof fn lemma_lex_skip(a: Seq<u8>, b: Seq<u8>, i: int)
    requires
        0 <= i <= a.len(),
        i <= b.len(),
        forall|j: int| 0 <= j < i ==> a[j] == b[j],
    ensures
        lex_le(a, b) == lex_le(a.skip(i), b.skip(i)),
    decreases i,
{
    if i > 0 {
        assert(a.len() > 0 && b.len() > 0 && a.first() == b.first());
        assert forall|j: int| 0 <= j < i - 1 implies a.drop_first()[j] == b.drop_first()[j] by {
            assert(a.drop_first()[j] == a[j + 1]);
            assert(b.drop_first()[j] == b[j + 1]);
        }
        lemma_lex_skip(a.drop_first(), b.drop_first(), i - 1);
        assert(a.drop_first().skip(i - 1) =~= a.skip(i));
        assert(b.drop_first().skip(i - 1) =~= b.skip(i));
    } else {
        assert(a.skip(0) =~= a);
        assert(b.skip(0) =~= b);
    }
}

/// The first position whose element does not order at or before `x`.
#[verifier::loop_isolation(false)]
fn find_insert_pos(out: &Vec<RawAccountId>, x: &RawAccountId) -> (p: usize)
    ensures
        p <= out@.len(),
        forall|j: int| 0 <= j < p ==> lex_le(views_of(out@)[j], x@),
        p < out@.len() ==> !lex_le(views_of(out@)[p as int], x@),
{
    let n = out.len();
    let mut p: usize = 0;
    while p < n
        invariant
            p <= n,
            forall|j: int| 0 <= j < p ==> lex_le(views_of(out@)[j], x@),
        decreases n - p,
    {
        if !account_le(&out[p], x) {
            return p;
        }
        p += 1;
    }
    p
}

/// Places `x` at its position in an ascending list.
#[verifier::loop_isolation(false)]
fn insert_sorted(out: &mut Vec<RawAccountId>, x: RawAccountId)
    requires
        sorted_by(views_of(old(out)@), lex_leq_fn()),
        total_ordering(lex_leq_fn()),
        forall|j: int| 0 <= j < old(out)@.len() ==> (#[trigger] old(out)@[j]).wf(),
        x.wf(),
    ensures
        sorted_by(views_of(final(out)@), lex_leq_fn()),
        views_of(final(out)@).to_multiset() == views_of(old(out)@).to_multiset().insert(x@),
        forall|j: int| 0 <= j < final(out)@.len() ==> (#[trigger] final(out)@[j]).wf(),
        final(out)@.len() == old(out)@.len() + 1,
{
    let p = find_insert_pos(out, &x);
    let ghost before = views_of(out@);
    out.insert(p, x);
    proof {
        let after = views_of(out@);
        assert(after =~= before.insert(p as int, x@));
        let leq = lex_leq_fn();
        assert forall|u: int, w: int| 0 <= u < w < after.len() implies leq(after[u], after[w]) by {
            if w < p {
                assert(after[u] == before[u] && after[w] == before[w]);
            } else if u < p && w == p {
                assert(after[u] == before[u] && after[w] == x@);
            } else if u < p && w > p {
                assert(after[u] == before[u] && after[w] == before[w - 1]);
            } else if u == p {
                assert(after[u] == x@ && after[w] == before[w - 1]);
                assert(w - 1 >= p && p < before.len());
                assert(!leq(before[p as int], x@));
                assert(leq(x@, before[p as int]));
                if w - 1 > p {
                    assert(leq(before[p as int], before[w - 1]));
                }
                assert(leq(x@, before[w - 1]));
            } else {
                assert(u > p);
                assert(after[u] == before[u - 1] && after[w] == before[w - 1]);
            }
        }
        vstd::seq_lib::to_multiset_insert(before, p as int, x@);
    }
}

/// The members in ascending byte-lexicographic order.
#[verifier::loop_isolation(false)]
pub fn sorted_accounts(v: Vec<RawAccountId>) -> (out: Vec<RawAccountId>)
    requires
        forall|j: int| 0 <= j < v@.len() ==> (#[trigger] v@[j]).wf(),
    ensures
        views_of(out@) == sort_views(views_of(v@)),
        forall|j: int| 0 <= j < out@.len() ==> (#[trigger] out@[j]).wf(),
        out@.len() == v@.len(),
{
    let ghost orig = views_of(v@);
    proof {
        lemma_lex_total_ordering();
        orig.lemma_sort_by_ensures(lex_leq_fn());
        broadcast use vstd::seq_lib::group_to_multiset_ensures;
        broadcast use vstd::multiset::group_multiset_axioms;

        assert(views_of(v@).to_multiset().add(Multiset::empty()) =~= orig.to_multiset());
    }
    let mut rest = v;
    let mut out: Vec<RawAccountId> = Vec::new();
    while rest.len() > 0
        invariant
            sorted_by(views_of(out@), lex_leq_fn()),
            views_of(out@).to_multiset().add(views_of(rest@).to_multiset()) == orig.to_multiset(),
            forall|j: int| 0 <= j < rest@.len() ==> (#[trigger] rest@[j]).wf(),
            forall|j: int| 0 <= j < out@.len() ==> (#[trigger] out@[j]).wf(),
            out@.len() + rest@.len() == orig.len(),
        decreases rest@.len(),
    {
        let ghost prev_rest = views_of(rest@);
        let ghost prev_out = views_of(out@);
        let x = rest.pop().unwrap();
        proof {
            broadcast use vstd::seq_lib::group_to_multiset_ensures;
            broadcast use vstd::multiset::group_multiset_axioms;

            assert(prev_rest =~= views_of(rest@).push(x@));
            assert(prev_rest.to_multiset() =~= views_of(rest@).to_multiset().insert(x@));
        }
        insert_sorted(&mut out, x);
        proof {
            broadcast use vstd::multiset::group_multiset_axioms;

            assert(views_of(out@).to_multiset().add(views_of(rest@).to_multiset()) =~= prev_out
                .to_multiset().add(prev_rest.to_multiset()));
        }
    }
    proof {
        broadcast use vstd::seq_lib::group_to_multiset_ensures;
        broadcast use vstd::multiset::group_multiset_axioms;

        assert(views_of(rest@).len() == 0);
        assert(views_of(rest@).to_multiset().len() == 0);
        assert(views_of(rest@).to_multiset() =~= Multiset::empty());
        assert(views_of(out@).to_multiset() =~= orig.to_multiset());
        lemma_sorted_unique(views_of(out@), orig.sort_by(lex_leq_fn()), lex_leq_fn());
        assert(views_of(out@) == sort_views(orig));
        orig.to_multiset_ensures();
        views_of(out@).to_multiset_ensures();
    }
    out
}

/// The length-prefix encoding of a member count: two low marker bits, the
/// count above them, in as few little-endian bytes as the count needs.
pub open spec fn compact_len_spec(n: nat) -> Seq<u8>
    recommends
        n < 0x40000000,
{
    if n < 64 {
        seq![(n * 4) as u8]
    } else if n < 16384 {
        seq![((n * 4 + 1) % 256) as u8, ((n * 4 + 1) / 256) as u8]
    } else {
        seq![
            ((n * 4 + 2) % 256) as u8,
            (((n * 4 + 2) / 256) % 256) as u8,
            (((n * 4 + 2) / 65536) % 256) as u8,
            (((n * 4 + 2) / 16777216) % 256) as u8,
        ]
    }
}

/// Writes the length-prefix encoding of a member count.
fn compact_len(n: usize) -> (out: Vec<u8>)
    requires
        n < 0x40000000,
    ensures
        out@ == compact_len_spec(n as nat),
{
    let mut out: Vec<u8> = Vec::new();
    let w: u64 = (n as u64) * 4;
    if n < 64 {
        out.push(w as u8);
        proof {
            assert(out@ =~= compact_len_spec(n as nat));
        }
    } else if n < 16384 {
        let w1 = w + 1;
        out.push((w1 % 256) as u8);
        out.push((w1 / 256) as u8);
        proof {
            assert(out@ =~= compact_len_spec(n as nat));
        }
    } else {
        let w2 = w + 2;
        out.push((w2 % 256) as u8);
        out.push(((w2 / 256) % 256) as u8);
        out.push(((w2 / 65536) % 256) as u8);
        out.push(((w2 / 16777216) % 256) as u8);
        proof {
            assert(out@ =~= compact_len_spec(n as nat));
        }
    }
    out
}

/// The fixed domain-separation literal `modlpy/utilisuba`.
pub open spec fn multisig_domain() -> Seq<u8> {
    seq![
        109u8,
        111u8,
        100u8,
        108u8,
        112u8,
        121u8,
        47u8,
        117u8,
        116u8,
        105u8,
        108u8,
        105u8,
        115u8,
        117u8,
        98u8,
        97u8,
    ]
}

/// The byte string that is hashed: the domain literal, the length-prefixed
/// sorted member list, and the two-byte little-endian threshold.
pub open spec fn derive_entropy(members: Seq<Seq<u8>>, threshold: u16) -> Seq<u8> {
    multisig_domain() + compact_len_spec(members.len()) + sort_views(members).flatten() + seq![
        (threshold % 256) as u8,
        (threshold / 256) as u8,
    ]
}

/// The derived multisignature account identifier: the digest of the
/// canonical layout of the sorted members and the threshold.
pub open spec fn multi_account_spec(members: Seq<Seq<u8>>, threshold: u16) -> Seq<u8> {
    blake2_256_of(derive_entropy(members, threshold))
}

/// Derives the multisignature account identifier for a member list and a
/// threshold. The order of the members does not matter; the threshold is
/// not bounded by the member count.
#[verifier::loop_isolation(false)]
pub fn multi_account_id(members: Vec<RawAccountId>, threshold: u16) -> (r: RawAccountId)
    requires
        members@.len() < 0x40000000,
        forall|j: int| 0 <= j < members@.len() ==> (#[trigger] members@[j]).wf(),
    ensures
        r.wf(),
        r@ == multi_account_spec(views_of(members@), threshold),
{
    let ghost orig = views_of(members@);
    let sorted = sorted_accounts(members);
    let mut data: Vec<u8> = Vec::new();
    data.push(109);
    data.push(111);
    data.push(100);
    data.push(108);
    data.push(112);
    data.push(121);
    data.push(47);
    data.push(117);
    data.push(116);
    data.push(105);
    data.push(108);
    data.push(105);
    data.push(115);
    data.push(117);
    data.push(98);
    data.push(97);
    proof {
        assert(data@ =~= multisig_domain());
    }
    let mut cl = compact_len(sorted.len());
    data.append(&mut cl);
    let ghost head = multisig_domain() + compact_len_spec(orig.len());
    proof {
        assert(data@ == head);
        assert(views_of(sorted@).take(0) =~= Seq::<Seq<u8>>::empty());
        assert(Seq::<Seq<u8>>::empty().flatten() =~= Seq::<u8>::empty());
        assert(data@ =~= head + views_of(sorted@).take(0).flatten());
    }
    let n = sorted.len();
    let mut i: usize = 0;
    while i < n
        invariant
            i <= n,
            data@ == head + views_of(sorted@).take(i as int).flatten(),
        decreases n - i,
    {
        let ghost part = views_of(sorted@).take(i as int);
        data.extend_from_slice(sorted[i].as_slice());
        proof {
            assert(views_of(sorted@).take(i + 1) =~= part.push(sorted@[i as int]@));
            part.lemma_flatten_push(sorted@[i as int]@);
            assert(data@ =~= head + views_of(sorted@).take(i + 1).flatten());
        }
        i += 1;
    }
    data.push((threshold % 256) as u8);
    data.push((threshold / 256) as u8);
    proof {
        assert(views_of(sorted@).take(n as int) =~= views_of(sorted@));
        assert(data@ =~= derive_entropy(orig, threshold));
    }
    let digest = blake2_256(data.as_slice());
    RawAccountId::new(digest)
}

/// Two member lists with the same members, in any orders, derive the same
/// identifier under the same threshold.
pub proof fn lemma_order_independence(m1: Seq<Seq<u8>>, m2: Seq<Seq<u8>>, t: u16)
    requires
        m1.to_multiset() == m2.to_multiset(),
    ensures
        multi_account_spec(m1, t) == multi_account_spec(m2, t),
{
    lemma_lex_total_ordering();
    m1.lemma_sort_by_ensures(lex_leq_fn());
    m2.lemma_sort_by_ensures(lex_leq_fn());
    m1.to_multiset_ensures();
    m2.to_multiset_ensures();
    assert(m1.len() == m2.len());
    lemma_sorted_unique(m1.sort_by(lex_leq_fn()), m2.sort_by(lex_leq_fn()), lex_leq_fn());
    assert(sort_views(m1) == sort_views(m2));
}

/// Reversing the member list leaves the derived identifier unchanged.
pub proof fn lemma_reverse_independence(m: Seq<Seq<u8>>, t: u16)
    ensures
        multi_account_spec(m.reverse(), t) == multi_account_spec(m, t),
{
    m.lemma_reverse_to_multiset();
    lemma_order_independence(m.reverse(), m, t);
}

} // verus!
