//! Unsigned LEB128 varints, as used to frame CAR sections and inside CIDs.
use vstd::prelude::*;

verus! {

/// The minimal varint encoding of `n`: seven bits per byte, least
/// significant group first, the high bit set on every byte but the last.
pub open spec fn varint(n: nat) -> Seq<u8>
    decreases n,
{
    if n < 128 {
        seq![n as u8]
    } else {
        seq![(n % 128 + 128) as u8] + varint(n / 128)
    }
}

/// `b` holds `varint(v)` from `start` on.
pub open spec fn has_varint_at(b: Seq<u8>, start: int, v: nat) -> bool {
    &&& 0 <= start
    &&& start + varint(v).len() <= b.len()
    &&& b.subrange(start, start + varint(v).len() as int) == varint(v)
}

pub proof fn lemma_varint_shape(n: nat)
    ensures
        varint(n).len() >= 1,
        varint(n)[varint(n).len() - 1] < 128,
        forall|i: int| 0 <= i < varint(n).len() - 1 ==> varint(n)[i] >= 128,
        varint(n).len() > 1 ==> varint(n)[varint(n).len() - 1] != 0,
        n < 128 ==> varint(n) == seq![n as u8],
        n >= 128 ==> varint(n)[0] == n % 128 + 128 && varint(n).subrange(1, varint(n).len() as int)
            == varint(n / 128),
    decreases n,
{
    if n >= 128 {
        lemma_varint_shape(n / 128);
        let t = varint(n / 128);
        assert(varint(n) == seq![(n % 128 + 128) as u8] + t);
        assert(varint(n).subrange(1, varint(n).len() as int) =~= t);
        assert forall|i: int| 0 <= i < varint(n).len() - 1 implies varint(n)[i] >= 128 by {
            if i > 0 {
                assert(varint(n)[i] == t[i - 1]);
            }
        }
        if t.len() == 1 {
            assert(n / 128 >= 1);
            assert(t == seq![(n / 128) as u8]);
        }
    }
}

pub proof fn lemma_varint_injective(a: nat, b: nat)
    requires
        varint(a) == varint(b),
    ensures
        a == b,
    decreases a,
{
    lemma_varint_shape(a);
    lemma_varint_shape(b);
    if a >= 128 && b >= 128 {
        lemma_varint_injective(a / 128, b / 128);
        assert(a % 128 == b % 128);
    } else if a >= 128 {
        assert(varint(a).len() > 1);
    } else if b >= 128 {
        assert(varint(b).len() > 1);
    }
}

/// A varint of a value that fits in 64 bits has at most ten bytes.
pub proof fn lemma_varint_len_u64(n: nat, k: nat)
    requires
        n < pow128(k),
    ensures
        varint(n).len() <= if k == 0 { 1 } else { k },
    decreases n,
{
    if n >= 128 {
        assert(k >= 1) by {
            if k == 0 {
                assert(pow128(0) == 1);
            }
        }
        assert(n / 128 < pow128((k - 1) as nat)) by {
            assert(pow128(k) == 128 * pow128((k - 1) as nat));
            assert(n / 128 < pow128((k - 1) as nat)) by (nonlinear_arith)
                requires
                    n < 128 * pow128((k - 1) as nat),
            ;
        }
        lemma_varint_len_u64(n / 128, (k - 1) as nat);
        lemma_varint_shape(n);
        assert(varint(n).len() == 1 + varint(n / 128).len());
        if k == 1 {
            assert(pow128(0) == 1);
            assert(false);
        }
    }
}

pub open spec fn pow128(k: nat) -> nat
    decreases k,
{
    if k == 0 {
        1
    } else {
        128 * pow128((k - 1) as nat)
    }
}

pub proof fn lemma_u64_varint_len(n: u64)
    ensures
        varint(n as nat).len() <= 10,
{
    reveal_with_fuel(pow128, 11);
    assert(pow128(10) == 1180591620717411303424nat);
    lemma_varint_len_u64(n as nat, 10);
}

/// Each suffix of a varint is itself the varint of a value no larger.
pub proof fn lemma_varint_suffix(n: nat, i: int)
    requires
        0 <= i < varint(n).len(),
    ensures
        exists|u: nat| u <= n && #[trigger] varint(u) == varint(n).subrange(i, varint(n).len() as int),
    decreases n,
{
    lemma_varint_shape(n);
    if i == 0 {
        assert(varint(n).subrange(0, varint(n).len() as int) =~= varint(n));
    } else {
        lemma_varint_suffix(n / 128, i - 1);
        let u = choose|u: nat| u <= n / 128 && #[trigger] varint(u) == varint(n / 128).subrange(i - 1, varint(n / 128).len() as int);
        assert(varint(n).subrange(i, varint(n).len() as int) =~= varint(n / 128).subrange(i - 1, varint(n / 128).len() as int));
    }
}

/// Appends the varint of `n` to `out`.
pub fn encode_varint(n: u64, out: &mut Vec<u8>)
    ensures
        final(out)@ == old(out)@ + varint(n as nat),
{
    let mut v = n;
    let ghost pre = old(out)@;
    while v >= 128
        invariant
            pre + varint(n as nat) == out@ + varint(v as nat),
        decreases v,
    {
        let b = ((v % 128) + 128) as u8;
        proof {
            lemma_varint_shape(v as nat);
            assert(varint(v as nat) == seq![b] + varint((v / 128) as nat));
            assert(out@ + varint(v as nat) =~= out@.push(b) + varint((v / 128) as nat));
        }
        out.push(b);
        v = v / 128;
    }
    proof {
        assert(varint(v as nat) == seq![v as u8]);
        assert(out@ + varint(v as nat) =~= out@.push(v as u8));
    }
    out.push(v as u8);
}

/// Reads the minimal varint at `start`: its value and the index just past
/// it, or `None` when no varint of a 64-bit value starts there.
pub fn decode_varint(b: &[u8], start: usize) -> (r: Option<(u64, usize)>)
    ensures
        r matches Some((v, end)) ==> end == start + varint(v as nat).len() && has_varint_at(b@, start as int, v as nat),
        forall|t: u64| #[trigger] has_varint_at(b@, start as int, t as nat) ==> r == Some((t, (start + varint(t as nat).len()) as usize)),
{
    let len = b.len();
    if start >= len {
        assert forall|t: u64| !#[trigger] has_varint_at(b@, start as int, t as nat) by {
            lemma_varint_shape(t as nat);
        }
        return None;
    }
    // Find the terminating byte: the first one without the high bit.
    let mut e: usize = start;
    while e < len && e - start < 10 && b[e] >= 128
        invariant
            len == b@.len(),
            start <= e <= len,
            e - start <= 10,
            forall|i: int| start <= i < e ==> b@[i] >= 128,
        decreases len - e,
    {
        e = e + 1;
    }
    if e >= len || e - start >= 10 {
        proof {
            assert forall|t: u64| !#[trigger] has_varint_at(b@, start as int, t as nat) by {
                if has_varint_at(b@, start as int, t as nat) {
                    lemma_varint_shape(t as nat);
                    lemma_u64_varint_len(t);
                    let l = varint(t as nat).len() as int;
                    assert(b@[start + l - 1] == varint(t as nat)[l - 1]);
                }
            }
        }
        return None;
    }
    proof {
        assert forall|t: u64| #[trigger] has_varint_at(b@, start as int, t as nat) implies start + varint(t as nat).len() == e + 1 by {
            lemma_varint_shape(t as nat);
            let l = varint(t as nat).len() as int;
            if start + l - 1 < e {
                assert(b@[start + l - 1] == varint(t as nat)[l - 1]);
            } else if start + l - 1 > e {
                assert(b@[e as int] == varint(t as nat)[e - start]);
            }
        }
    }
    if e > start && b[e] == 0 {
        proof {
            assert forall|t: u64| !#[trigger] has_varint_at(b@, start as int, t as nat) by {
                if has_varint_at(b@, start as int, t as nat) {
                    lemma_varint_shape(t as nat);
                    let l = varint(t as nat).len() as int;
                    assert(b@[start + l - 1] == varint(t as nat)[l - 1]);
                }
            }
        }
        return None;
    }
    let mut v: u64 = b[e] as u64;
    let mut j: usize = e;
    proof {
        assert(b@.subrange(e as int, e + 1) =~= seq![b@[e as int]]);
        assert(varint(v as nat) == seq![v as u8]);
    }
    while j > start
        invariant
            len == b@.len(),
            start <= j <= e < len,
            e - start < 10,
            forall|i: int| start <= i < e ==> b@[i] >= 128,
            b@.subrange(j as int, e + 1) == varint(v as nat),
            j < e ==> v >= 1,
            e > start ==> b@[e as int] != 0,
            v == b@[e as int] || j < e,
            forall|t: u64| #[trigger] has_varint_at(b@, start as int, t as nat) ==> start + varint(t as nat).len() == e + 1,
        decreases j,
    {
        let d = (b[j - 1] - 128) as u64;
        if v > (u64::MAX - d) / 128 {
            proof {
                assert forall|t: u64| !#[trigger] has_varint_at(b@, start as int, t as nat) by {
                    if has_varint_at(b@, start as int, t as nat) {
                        let vt = varint(t as nat);
                        lemma_varint_suffix(t as nat, j - 1 - start);
                        let u = choose|u: nat| u <= t && #[trigger] varint(u) == vt.subrange(j - 1 - start, vt.len() as int);
                        assert(vt.subrange(j - 1 - start, vt.len() as int) =~= b@.subrange(j - 1, e + 1));
                        lemma_varint_shape(u);
                        if u < 128 {
                            assert(varint(u).len() == 1);
                            assert(false);
                        }
                        assert(varint(u).subrange(1, varint(u).len() as int) =~= b@.subrange(j as int, e + 1));
                        lemma_varint_injective(u / 128, v as nat);
                        assert(u == (u / 128) * 128 + u % 128);
                        assert(varint(u)[0] == b@[j - 1]);
                        assert(u % 128 == d);
                        assert(v * 128 + d > u64::MAX) by (nonlinear_arith)
                            requires
                                v > (u64::MAX - d) / 128,
                                d < 128,
                        ;
                    }
                }
            }
            return None;
        }
        let nv = v * 128 + d;
        proof {
            assert(nv * 1 == v * 128 + d);
            assert(nv / 128 == v && nv % 128 == d) by (nonlinear_arith)
                requires
                    nv == v * 128 + d,
                    d < 128,
            ;
            assert(v >= 1) by {
                if j == e {
                    assert(e > start);
                }
            }
            lemma_varint_shape(nv as nat);
            assert(b@.subrange(j - 1, e + 1) =~= seq![b@[j - 1]] + b@.subrange(j as int, e + 1));
        }
        v = nv;
        j = j - 1;
    }
    proof {
        assert(has_varint_at(b@, start as int, v as nat));
        assert forall|t: u64| #[trigger] has_varint_at(b@, start as int, t as nat) implies Some((v, (e + 1) as usize)) == Some((t, (start + varint(t as nat).len()) as usize)) by {
            assert(b@.subrange(start as int, e + 1) == varint(t as nat));
            lemma_varint_injective(v as nat, t as nat);
        }
    }
    Some((v, e + 1))
}

} // verus!
