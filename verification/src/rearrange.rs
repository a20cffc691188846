use vstd::prelude::*;

verus! {

/// No element is larger than a later one.
pub open spec fn ascending(s: Seq<u64>) -> bool {
    forall|i: int, j: int| 0 <= i <= j < s.len() ==> s[i] <= s[j]
}

/// `slice::sort` of the standard library on 64-bit integers: afterwards the
/// vector holds what it held before, each value as often as before, and no
/// element is larger than a later one.
#[verifier::external_body]
pub(crate) fn sort(v: &mut Vec<u64>)
    ensures
        final(v)@.to_multiset() == old(v)@.to_multiset(),
        ascending(final(v)@),
{
    v.sort();
}

/// The image of an element under a function that takes no two elements to
/// one occurs among the images as often as the element among the elements.
pub proof fn lemma_count_image<A, B>(s: Seq<A>, f: spec_fn(A) -> B, a: A)
    requires
        forall|x: A, y: A| #[trigger] f(x) == #[trigger] f(y) ==> x == y,
    ensures
        s.map_values(f).to_multiset().count(f(a)) == s.to_multiset().count(a),
    decreases s.len(),
{
    broadcast use vstd::seq_lib::group_to_multiset_ensures;

    if s.len() == 0 {
        assert(s.map_values(f) == Seq::<B>::empty());
        assert(s == Seq::<A>::empty());
    } else {
        let head = s.drop_last();
        lemma_count_image(head, f, a);
        assert(s == head.push(s.last()));
        assert(s.map_values(f) == head.map_values(f).push(f(s.last())));
    }
}

/// Where keys stand one to one for elements, the elements of a
/// rearrangement of the keys of some elements are a rearrangement of these
/// elements.
pub proof fn lemma_rearranged<A, B>(s: Seq<A>, t: Seq<B>, f: spec_fn(A) -> B, g: spec_fn(B) -> A)
    requires
        forall|a: A| g(#[trigger] f(a)) == a,
        forall|b: B| f(#[trigger] g(b)) == b,
        t.to_multiset() == s.map_values(f).to_multiset(),
    ensures
        t.map_values(g).to_multiset() == s.to_multiset(),
{
    assert forall|x: B, y: B| #[trigger] g(x) == #[trigger] g(y) implies x == y by {
        assert(f(g(x)) == x);
        assert(f(g(y)) == y);
    }
    assert forall|x: A, y: A| #[trigger] f(x) == #[trigger] f(y) implies x == y by {
        assert(g(f(x)) == x);
        assert(g(f(y)) == y);
    }
    assert forall|a: A| t.map_values(g).to_multiset().count(a) == s.to_multiset().count(a) by {
        lemma_count_image(t, g, f(a));
        lemma_count_image(s, f, a);
    }
    assert(t.map_values(g).to_multiset() =~= s.to_multiset());
}

/// The buckets as sequences.
pub open spec fn parts(buckets: Seq<Vec<u64>>) -> Seq<Seq<u64>> {
    Seq::new(buckets.len(), |b: int| buckets[b]@)
}

/// The first `n` parts, one behind the other.
pub open spec fn flat(parts: Seq<Seq<u64>>, n: nat) -> Seq<u64>
    decreases n,
{
    if n == 0 {
        Seq::empty()
    } else {
        flat(parts, (n - 1) as nat) + parts[n - 1]
    }
}

/// The first parts, one behind the other, depend on these parts only.
proof fn lemma_flat_frame(p: Seq<Seq<u64>>, q: Seq<Seq<u64>>, n: nat)
    requires
        n <= p.len(),
        n <= q.len(),
        forall|b: int| 0 <= b < n ==> p[b] == q[b],
    ensures
        flat(p, n) == flat(q, n),
    decreases n,
{
    if n > 0 {
        lemma_flat_frame(p, q, (n - 1) as nat);
    }
}

/// One more value in one of the parts is one more value in all.
proof fn lemma_flat_push(p: Seq<Seq<u64>>, at: int, z: u64, n: nat)
    requires
        0 <= at < n <= p.len(),
    ensures
        flat(p.update(at, p[at].push(z)), n).to_multiset() == flat(p, n).to_multiset().insert(z),
    decreases n,
{
    broadcast use vstd::seq_lib::group_to_multiset_ensures;

    let q = p.update(at, p[at].push(z));
    let head = flat(p, (n - 1) as nat);
    if at == n - 1 {
        lemma_flat_frame(p, q, (n - 1) as nat);
        assert(head + p[at].push(z) == (head + p[at]).push(z));
    } else {
        lemma_flat_push(p, at, z, (n - 1) as nat);
        let head2 = flat(q, (n - 1) as nat);
        let last = p[n - 1];
        vstd::seq_lib::lemma_multiset_commutative(head, last);
        vstd::seq_lib::lemma_multiset_commutative(head2, last);
        assert(head2.to_multiset().add(last.to_multiset()) =~= head.to_multiset().add(
            last.to_multiset(),
        ).insert(z));
    }
}

/// Sorts by parts: the values go into 256 buckets by their highest byte,
/// each bucket is sorted by itself, and the buckets follow one another.
pub fn sort_by_parts(zs: &Vec<u64>) -> (out: Vec<u64>)
    ensures
        out@.to_multiset() == zs@.to_multiset(),
        ascending(out@),
{
    let mut buckets: Vec<Vec<u64>> = Vec::new();
    let mut b: usize = 0;
    while b < 256
        invariant
            b <= 256,
            buckets@.len() == b,
            forall|c: int| 0 <= c < b ==> (#[trigger] buckets@[c])@.len() == 0,
        decreases 256 - b,
    {
        buckets.push(Vec::new());
        b = b + 1;
    }
    proof {
        lemma_flat_empty(parts(buckets@), 256);
        assert(zs@.take(0) == Seq::<u64>::empty());
    }
    let mut i: usize = 0;
    while i < zs.len()
        invariant
            i <= zs@.len(),
            buckets@.len() == 256,
            forall|c: int, k: int|
                0 <= c < 256 && 0 <= k < buckets@[c]@.len() ==> (#[trigger] buckets@[c]@[k])
                    / 0x100_0000_0000_0000 == c,
            flat(parts(buckets@), 256).to_multiset() == zs@.take(i as int).to_multiset(),
        decreases zs@.len() - i,
    {
        let z: u64 = zs[i];
        let at: usize = (z / 0x100_0000_0000_0000) as usize;
        let ghost before = parts(buckets@);
        buckets[at].push(z);
        proof {
            broadcast use vstd::seq_lib::group_to_multiset_ensures;

            assert(parts(buckets@) =~= before.update(at as int, before[at as int].push(z)));
            lemma_flat_push(before, at as int, z, 256);
            assert(zs@.take(i + 1) == zs@.take(i as int).push(z));
        }
        i = i + 1;
    }
    proof {
        assert(zs@.take(i as int) == zs@);
    }
    let mut out: Vec<u64> = Vec::new();
    let mut b: usize = 0;
    while b < 256
        invariant
            b <= 256,
            buckets@.len() == 256,
            forall|c: int, k: int|
                0 <= c < 256 && 0 <= k < buckets@[c]@.len() ==> (#[trigger] buckets@[c]@[k])
                    / 0x100_0000_0000_0000 == c,
            ascending(out@),
            forall|k: int| 0 <= k < out@.len() ==> (#[trigger] out@[k]) / 0x100_0000_0000_0000 < b,
            out@.to_multiset() == flat(parts(buckets@), b as nat).to_multiset(),
        decreases 256 - b,
    {
        let mut part: Vec<u64> = Vec::new();
        let mut k: usize = 0;
        while k < buckets[b].len()
            invariant
                b < 256,
                buckets@.len() == 256,
                k <= buckets@[b as int]@.len(),
                part@ == buckets@[b as int]@.take(k as int),
            decreases buckets@[b as int]@.len() - k,
        {
            let z: u64 = buckets[b][k];
            proof {
                let all = buckets@[b as int]@;
                assert(all.take(k + 1) == all.take(k as int).push(z));
            }
            part.push(z);
            k = k + 1;
        }
        let ghost mine = buckets@[b as int]@;
        proof {
            assert(mine.take(k as int) == mine);
        }
        sort(&mut part);
        let ghost before = out@;
        proof {
            broadcast use vstd::seq_lib::group_to_multiset_ensures;

            assert forall|j: int| 0 <= j < part@.len() implies (#[trigger] part@[j])
                / 0x100_0000_0000_0000 == b by {
                assert(part@.contains(part@[j]));
                assert(part@.to_multiset().count(part@[j]) > 0);
                assert(mine.contains(part@[j]));
                let w = choose|w: int| 0 <= w < mine.len() && mine[w] == part@[j];
                assert(buckets@[b as int]@[w] / 0x100_0000_0000_0000 == b);
            }
        }
        let mut j: usize = 0;
        while j < part.len()
            invariant
                j <= part@.len(),
                out@ == before + part@.take(j as int),
            decreases part@.len() - j,
        {
            let z: u64 = part[j];
            proof {
                assert(part@.take(j + 1) == part@.take(j as int).push(z));
                assert((before + part@.take(j as int)).push(z) == before + part@.take(j + 1));
            }
            out.push(z);
            j = j + 1;
        }
        proof {
            assert(part@.take(j as int) == part@);
            vstd::seq_lib::lemma_multiset_commutative(before, part@);
            vstd::seq_lib::lemma_multiset_commutative(flat(parts(buckets@), b as nat), mine);
            assert(parts(buckets@)[b as int] == mine);
            assert forall|u: int, v: int| 0 <= u <= v < out@.len() implies out@[u] <= out@[v] by {
                if v < before.len() {
                    assert(out@[u] == before[u] && out@[v] == before[v]);
                } else if u >= before.len() {
                    assert(out@[u] == part@[u - before.len()]);
                    assert(out@[v] == part@[v - before.len()]);
                } else {
                    assert(out@[u] == before[u]);
                    assert(out@[v] == part@[v - before.len()]);
                    assert(before[u] / 0x100_0000_0000_0000 < b);
                    assert(part@[v - before.len()] / 0x100_0000_0000_0000 == b);
                }
            }
            assert forall|u: int| 0 <= u < out@.len() implies (#[trigger] out@[u])
                / 0x100_0000_0000_0000 < b + 1 by {
                if u < before.len() {
                    assert(out@[u] == before[u]);
                } else {
                    assert(out@[u] == part@[u - before.len()]);
                }
            }
        }
        b = b + 1;
    }
    out
}

/// Empty parts, one behind the other, are empty.
proof fn lemma_flat_empty(p: Seq<Seq<u64>>, n: nat)
    requires
        n <= p.len(),
        forall|b: int| 0 <= b < n ==> (#[trigger] p[b]).len() == 0,
    ensures
        flat(p, n) == Seq::<u64>::empty(),
    decreases n,
{
    if n > 0 {
        lemma_flat_empty(p, (n - 1) as nat);
        assert(flat(p, (n - 1) as nat) + p[n - 1] =~= Seq::<u64>::empty());
    }
}

} // verus!
