use vstd::prelude::*;

verus! {

/// The position of a double (given by its bit pattern) in IEEE-754 total order, as an
/// unsigned integer: non-negative values follow negative ones, each in numeric order.
pub open spec fn order_key(bits: u64) -> u64 {
    if bits >= 0x8000_0000_0000_0000 {
        !bits
    } else {
        bits | 0x8000_0000_0000_0000
    }
}

pub fn total_order_key(bits: u64) -> (r: u64)
    ensures
        r == order_key(bits),
{
    if bits >= 0x8000_0000_0000_0000 {
        !bits
    } else {
        bits | 0x8000_0000_0000_0000
    }
}

/// `s` is in ascending total order.
pub open spec fn ascending(s: Seq<u64>) -> bool {
    forall|i: int, j: int| 0 <= i < j < s.len() ==> order_key(#[trigger] s[i]) <= order_key(#[trigger] s[j])
}

/// A sorted copy of `values`, ascending in total order; `values` itself is left as it is.
pub fn sorted_copy(values: &Vec<u64>) -> (r: Vec<u64>)
    ensures
        ascending(r@),
        r@.to_multiset() == values@.to_multiset(),
{
    broadcast use vstd::seq_lib::group_to_multiset_ensures, vstd::multiset::group_multiset_axioms;
    let mut out: Vec<u64> = Vec::new();
    let mut k: usize = 0;
    while k < values.len()
        invariant
            k <= values@.len(),
            ascending(out@),
            out@.to_multiset() == values@.take(k as int).to_multiset(),
        decreases values@.len() - k,
    {
        let v = values[k];
        let kv = total_order_key(v);
        let mut pos: usize = 0;
        while pos < out.len() && total_order_key(out[pos]) <= kv
            invariant
                pos <= out@.len(),
                forall|i: int| 0 <= i < pos ==> order_key(#[trigger] out@[i]) <= kv,
            decreases out@.len() - pos,
        {
            pos = pos + 1;
        }
        let ghost before = out@;
        out.insert(pos, v);
        proof {
            let s = out@;
            assert(s == before.insert(pos as int, v));
            assert forall|i: int, j: int| 0 <= i < j < s.len() implies order_key(#[trigger] s[i]) <= order_key(#[trigger] s[j]) by {
                if j < pos {
                    assert(s[i] == before[i] && s[j] == before[j]);
                } else if j == pos {
                    assert(s[i] == before[i]);
                } else if i == pos {
                    assert(s[j] == before[j - 1]);
                    assert(order_key(before[pos as int]) > kv);
                    if j - 1 > pos {
                        assert(order_key(before[pos as int]) <= order_key(before[j - 1]));
                    }
                } else if i < pos {
                    assert(s[i] == before[i] && s[j] == before[j - 1]);
                } else {
                    assert(s[i] == before[i - 1] && s[j] == before[j - 1]);
                }
            }
            assert(s.remove(pos as int) =~= before);
            assert(s.contains(v)) by { assert(s[pos as int] == v); }
            let m = s.to_multiset();
            s.to_multiset_ensures();
            before.to_multiset_ensures();
            assert(s.remove(pos as int).to_multiset() == m.remove(s[pos as int]));
            assert(m.count(v) > 0);
            assert(m =~= m.remove(v).insert(v));
            assert(s.to_multiset() == before.to_multiset().insert(v));
            assert(values@.take(k + 1) =~= values@.take(k as int).push(v));
            values@.take(k as int).to_multiset_ensures();
        }
        k = k + 1;
    }
    assert(values@.take(values@.len() as int) =~= values@);
    out
}

/// The two central values of `values` in ascending total order (the same value twice for
/// an odd count), whose mean is the median; `None` for an empty series, which has no median.
pub fn median_pair(values: &Vec<u64>) -> (r: Option<(u64, u64)>)
    ensures
        r is None <==> values@.len() == 0,
        r matches Some(p) ==> exists|s: Seq<u64>| {
            &&& ascending(s)
            &&& s.to_multiset() == values@.to_multiset()
            &&& s.len() == values@.len()
            &&& p.0 == s[(s.len() - 1) / 2]
            &&& p.1 == s[s.len() as int / 2]
        },
{
    broadcast use vstd::seq_lib::group_to_multiset_ensures;
    if values.len() == 0 {
        return None;
    }
    let sorted = sorted_copy(values);
    let n = sorted.len();
    assert(sorted@.to_multiset().len() == values@.to_multiset().len());
    let p = (sorted[(n - 1) / 2], sorted[n / 2]);
    assert(ascending(sorted@) && sorted@.len() == values@.len());
    Some(p)
}

} // verus!
