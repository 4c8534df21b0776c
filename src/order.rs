use vstd::prelude::*;

use crate::error::PipelineError;

verus! {

/// Index of the last `.` among the first `k` characters of `s`, or -1 if there is none.
pub open spec fn last_dot_before(s: Seq<char>, k: int) -> int
    decreases k,
{
    if k <= 0 {
        -1
    } else if s[k - 1] == '.' {
        k - 1
    } else {
        last_dot_before(s, k - 1)
    }
}

pub open spec fn is_digit(c: char) -> bool {
    '0' <= c && c <= '9'
}

pub open spec fn digit_value(c: char) -> nat {
    (c as u32 - '0' as u32) as nat
}

pub open spec fn all_digits(s: Seq<char>, lo: int, hi: int) -> bool {
    forall|k: int| lo <= k < hi ==> is_digit(#[trigger] s[k])
}

/// The decimal number written by the characters `s[lo..hi]`.
pub open spec fn number_value(s: Seq<char>, lo: int, hi: int) -> nat
    decreases hi - lo,
{
    if hi <= lo {
        0
    } else {
        number_value(s, lo, hi - 1) * 10 + digit_value(s[hi - 1])
    }
}

/// `s[lo..hi]` read as a `u32`: an optional `+`, then one or more decimal digits
/// whose value fits in 32 bits.
pub open spec fn parse_key_in(s: Seq<char>, lo: int, hi: int) -> Option<u32> {
    let d = if lo < hi && s[lo] == '+' { lo + 1 } else { lo };
    if d < hi && all_digits(s, d, hi) && number_value(s, d, hi) <= u32::MAX {
        Some(number_value(s, d, hi) as u32)
    } else {
        None
    }
}

/// The ordering key of a file name `<stem>.<key>.<ext>`: the text between the
/// last `.` and the `.` before it (or the start of the name), read as a `u32`.
pub open spec fn key_of(name: Seq<char>) -> Option<u32> {
    let e = last_dot_before(name, name.len() as int);
    if e < 0 {
        None
    } else {
        parse_key_in(name, last_dot_before(name, e) + 1, e)
    }
}

fn find_last_dot(s: &str, k: usize) -> (r: Option<usize>)
    requires
        k <= s@.len(),
    ensures
        r is None ==> last_dot_before(s@, k as int) == -1,
        r matches Some(j) ==> j == last_dot_before(s@, k as int) && j < k,
{
    let mut i: usize = k;
    while i > 0
        invariant
            i <= k <= s@.len(),
            last_dot_before(s@, k as int) == last_dot_before(s@, i as int),
        decreases i,
    {
        if s.get_char(i - 1) == '.' {
            return Some(i - 1);
        }
        i = i - 1;
    }
    None
}

proof fn lemma_number_grows(s: Seq<char>, lo: int, mid: int, hi: int)
    requires
        lo <= mid <= hi,
        all_digits(s, lo, hi),
    ensures
        number_value(s, lo, mid) <= number_value(s, lo, hi),
    decreases hi - mid,
{
    if mid < hi {
        lemma_number_grows(s, lo, mid, hi - 1);
    }
}

fn parse_key_chars(s: &str, lo: usize, hi: usize) -> (r: Option<u32>)
    requires
        lo <= hi <= s@.len(),
    ensures
        r == parse_key_in(s@, lo as int, hi as int),
{
    let mut d: usize = lo;
    if lo < hi && s.get_char(lo) == '+' {
        d = lo + 1;
    }
    if d >= hi {
        return None;
    }
    let mut acc: u64 = 0;
    let mut i: usize = d;
    while i < hi
        invariant
            d <= i <= hi <= s@.len(),
            d == (if lo < hi && s@[lo as int] == '+' { lo + 1 } else { lo as int }),
            all_digits(s@, d as int, i as int),
            acc == number_value(s@, d as int, i as int),
            acc <= u32::MAX,
        decreases hi - i,
    {
        let c = s.get_char(i);
        if c < '0' || c > '9' {
            return None;
        }
        let next: u64 = acc * 10 + (c as u64 - '0' as u64);
        if next > u32::MAX as u64 {
            proof {
                assert(number_value(s@, d as int, i + 1) == next);
                if all_digits(s@, d as int, hi as int) {
                    lemma_number_grows(s@, d as int, i + 1, hi as int);
                }
            }
            return None;
        }
        acc = next;
        i = i + 1;
    }
    Some(acc as u32)
}

/// The ordering key of `name`, as `key_of` defines it.
pub fn key_of_name(name: &String) -> (r: Option<u32>)
    ensures
        r == key_of(name@),
{
    let s = name.as_str();
    let n = s.unicode_len();
    match find_last_dot(s, n) {
        None => None,
        Some(e) => {
            let b: usize = match find_last_dot(s, e) {
                None => 0,
                Some(j) => j + 1,
            };
            parse_key_chars(s, b, e)
        },
    }
}

/// Every name in `files` carries a key.
pub open spec fn all_keyed(files: Seq<String>) -> bool {
    forall|i: int| 0 <= i < files.len() ==> (#[trigger] key_of(files[i]@)) is Some
}

/// The keys of the first `n` names are pairwise different.
pub open spec fn keys_distinct_upto(files: Seq<String>, n: int) -> bool {
    forall|a: int, b: int|
        0 <= a < b < n ==> #[trigger] key_of(files[a]@) != #[trigger] key_of(files[b]@)
}

/// Every name carries a key, and the keys rise strictly from first to last.
pub open spec fn strictly_ordered(s: Seq<String>) -> bool {
    &&& all_keyed(s)
    &&& forall|a: int, b: int|
        0 <= a < b < s.len() ==> (#[trigger] key_of(s[a]@))->0 < (#[trigger] key_of(s[b]@))->0
}

/// `a` and `b` have the same length and each holds every name of the other.
pub open spec fn same_names(a: Seq<String>, b: Seq<String>) -> bool {
    &&& a.len() == b.len()
    &&& forall|i: int| 0 <= i < a.len() ==> b.contains(#[trigger] a[i])
    &&& forall|j: int| 0 <= j < b.len() ==> a.contains(#[trigger] b[j])
}

/// `out` is `files` rearranged into ascending key order.
pub open spec fn is_key_order_of(files: Seq<String>, out: Seq<String>) -> bool {
    same_names(files, out) && strictly_ordered(out)
}

fn read_keys(files: &Vec<String>) -> (r: Result<Vec<u32>, PipelineError>)
    ensures
        r is Ok <==> all_keyed(files@),
        r matches Ok(keys) ==> keys@.len() == files@.len() && forall|j: int|
            0 <= j < files@.len() ==> key_of(files@[j]@) == Some(#[trigger] keys@[j]),
        r matches Err(e) ==> e matches PipelineError::MalformedFilename { name } && exists|i: int|
            0 <= i < files@.len() && key_of(files@[i]@) is None && name == files@[i] && (forall|
                j: int,
            | 0 <= j < i ==> (#[trigger] key_of(files@[j]@)) is Some),
{
    let n = files.len();
    let mut keys: Vec<u32> = Vec::new();
    let mut i: usize = 0;
    while i < n
        invariant
            n == files@.len(),
            i <= n,
            keys@.len() == i,
            forall|j: int| 0 <= j < i ==> key_of(files@[j]@) == Some(#[trigger] keys@[j]),
        decreases n - i,
    {
        match key_of_name(&files[i]) {
            None => {
                proof {
                    assert forall|j: int| 0 <= j < i implies (#[trigger] key_of(files@[j]@)) is Some by {
                        assert(key_of(files@[j]@) == Some(keys@[j]));
                    }
                    assert(!all_keyed(files@)) by {
                        assert(key_of(files@[i as int]@) is None);
                    }
                }
                return Err(PipelineError::MalformedFilename { name: files[i].clone() });
            },
            Some(k) => {
                keys.push(k);
            },
        }
        i = i + 1;
    }
    assert(all_keyed(files@)) by {
        assert forall|j: int| 0 <= j < files@.len() implies (#[trigger] key_of(files@[j]@)) is Some by {
            assert(key_of(files@[j]@) == Some(keys@[j]));
        }
    }
    Ok(keys)
}

spec fn lists_index(order: Seq<usize>, j: int) -> bool {
    exists|p: int| 0 <= p < order.len() && #[trigger] order[p] == j
}

/// `order` lists each index below `n` once, by strictly ascending key.
spec fn is_index_order(keys: Seq<u32>, order: Seq<usize>, n: int) -> bool {
    &&& order.len() == n
    &&& forall|p: int| 0 <= p < n ==> #[trigger] order[p] < n
    &&& forall|p: int, q: int|
        0 <= p < q < n ==> keys[#[trigger] order[p] as int] < keys[#[trigger] order[q] as int]
    &&& forall|j: int| 0 <= j < n ==> #[trigger] lists_index(order, j)
}

/// Insertion of the indices of `keys` into key order, stopping at the first
/// index whose key an earlier one already has.
fn order_by_key(files: &Vec<String>, keys: &Vec<u32>) -> (r: Result<Vec<usize>, PipelineError>)
    requires
        keys@.len() == files@.len(),
        forall|j: int| 0 <= j < files@.len() ==> key_of(files@[j]@) == Some(#[trigger] keys@[j]),
    ensures
        r is Ok <==> keys_distinct_upto(files@, files@.len() as int),
        r matches Ok(order) ==> is_index_order(keys@, order@, files@.len() as int),
        r matches Err(e) ==> e matches PipelineError::DuplicateKey { key, names } && exists|
            a: int,
            b: int,
        |
            0 <= a < b < files@.len() && keys_distinct_upto(files@, b) && key_of(files@[a]@) == Some(
                key,
            ) && key_of(files@[b]@) == Some(key) && names@ == seq![files@[a], files@[b]],
{
    let n = files.len();
    let mut order: Vec<usize> = Vec::new();
    let mut i: usize = 0;
    while i < n
        invariant
            n == files@.len() == keys@.len(),
            i <= n,
            forall|j: int| 0 <= j < n ==> key_of(files@[j]@) == Some(#[trigger] keys@[j]),
            is_index_order(keys@, order@, i as int),
            keys_distinct_upto(files@, i as int),
        decreases n - i,
    {
        let k = keys[i];
        let mut p: usize = 0;
        while p < order.len() && keys[order[p]] < k
            invariant
                p <= order@.len() == i < n == keys@.len(),
                forall|q: int| 0 <= q < i ==> #[trigger] order@[q] < i,
                forall|q: int| 0 <= q < p ==> keys@[#[trigger] order@[q] as int] < k,
            decreases order@.len() - p,
        {
            p = p + 1;
        }
        if p < order.len() && keys[order[p]] == k {
            let a = order[p];
            let earlier = files[a].clone();
            let later = files[i].clone();
            let names = vec![earlier, later];
            assert(names@ == seq![files@[a as int], files@[i as int]]);
            assert(key_of(files@[a as int]@) == Some(keys@[a as int]));
            assert(key_of(files@[i as int]@) == Some(keys@[i as int]));
            assert(!keys_distinct_upto(files@, n as int)) by {
                assert(key_of(files@[a as int]@) == key_of(files@[i as int]@));
            }
            return Err(PipelineError::DuplicateKey { key: k, names });
        }
        let ghost old_order = order@;
        proof {
            assert forall|q: int| p <= q < i implies keys@[#[trigger] old_order[q] as int] > k by {
                if q > p {
                    assert(keys@[old_order[p as int] as int] < keys@[old_order[q] as int]);
                }
            }
        }
        order.insert(p, i);
        proof {
            assert(order@ == old_order.insert(p as int, i));
            assert forall|j: int| 0 <= j < i + 1 implies #[trigger] lists_index(order@, j) by {
                if j == i {
                    assert(order@[p as int] == j);
                } else {
                    assert(lists_index(old_order, j));
                    let q0 = choose|q: int| 0 <= q < old_order.len() && #[trigger] old_order[q] == j;
                    if q0 < p {
                        assert(order@[q0] == j);
                    } else {
                        assert(order@[q0 + 1] == j);
                    }
                }
            }
            assert forall|a: int, b: int| 0 <= a < b < i + 1 implies #[trigger] key_of(files@[a]@)
                != #[trigger] key_of(files@[b]@) by {
                if b == i {
                    assert(lists_index(old_order, a));
                    let q0 = choose|q: int| 0 <= q < old_order.len() && #[trigger] old_order[q] == a;
                    assert(keys@[old_order[q0] as int] != k);
                }
            }
        }
        i = i + 1;
    }
    Ok(order)
}

fn gather(files: &Vec<String>, keys: &Vec<u32>, order: &Vec<usize>) -> (out: Vec<String>)
    requires
        keys@.len() == files@.len(),
        forall|j: int| 0 <= j < files@.len() ==> key_of(files@[j]@) == Some(#[trigger] keys@[j]),
        is_index_order(keys@, order@, files@.len() as int),
    ensures
        is_key_order_of(files@, out@),
{
    let n = files.len();
    let mut out: Vec<String> = Vec::new();
    let mut t: usize = 0;
    while t < n
        invariant
            n == files@.len() == order@.len(),
            t <= n,
            forall|p: int| 0 <= p < n ==> #[trigger] order@[p] < n,
            out@.len() == t,
            forall|p: int| 0 <= p < t ==> #[trigger] out@[p] == files@[order@[p] as int],
        decreases n - t,
    {
        out.push(files[order[t]].clone());
        t = t + 1;
    }
    proof {
        assert forall|a: int, b: int| 0 <= a < b < n implies (#[trigger] key_of(out@[a]@))->0
            < (#[trigger] key_of(out@[b]@))->0 by {
            assert(keys@[order@[a] as int] < keys@[order@[b] as int]);
        }
        assert forall|j: int| 0 <= j < n implies (#[trigger] key_of(out@[j]@)) is Some by {
            assert(key_of(files@[order@[j] as int]@) == Some(keys@[order@[j] as int]));
        }
        assert forall|x: int| 0 <= x < n implies out@.contains(#[trigger] files@[x]) by {
            assert(lists_index(order@, x));
            let q0 = choose|q: int| 0 <= q < order@.len() && #[trigger] order@[q] == x;
            assert(out@[q0] == files@[x]);
        }
        assert forall|j: int| 0 <= j < out@.len() implies files@.contains(#[trigger] out@[j]) by {
            assert(files@[order@[j] as int] == out@[j]);
        }
    }
    out
}

/// Orders segment file names by their key, ascending.
///
/// Fails with `MalformedFilename` naming the first name without a key; otherwise,
/// with `DuplicateKey` naming the first name whose key an earlier name already
/// had, after that earlier name.
pub fn sort_files(files: &Vec<String>) -> (r: Result<Vec<String>, PipelineError>)
    ensures
        r is Ok <==> all_keyed(files@) && keys_distinct_upto(files@, files@.len() as int),
        (r matches Err(PipelineError::MalformedFilename { .. })) <==> !all_keyed(files@),
        r matches Ok(out) ==> is_key_order_of(files@, out@),
        r matches Err(PipelineError::MalformedFilename { name }) ==> exists|i: int|
            0 <= i < files@.len() && key_of(files@[i]@) is None && name == files@[i] && (forall|
                j: int,
            | 0 <= j < i ==> (#[trigger] key_of(files@[j]@)) is Some),
        r matches Err(PipelineError::DuplicateKey { key, names }) ==> all_keyed(files@) && exists|
            a: int,
            b: int,
        |
            0 <= a < b < files@.len() && keys_distinct_upto(files@, b) && key_of(files@[a]@) == Some(
                key,
            ) && key_of(files@[b]@) == Some(key) && names@ == seq![files@[a], files@[b]],
        r is Ok || (r matches Err(PipelineError::MalformedFilename { .. })) || (r matches Err(
            PipelineError::DuplicateKey { .. },
        )),
{
    let keys = match read_keys(files) {
        Ok(keys) => keys,
        Err(e) => {
            return Err(e);
        },
    };
    let order = match order_by_key(files, &keys) {
        Ok(order) => order,
        Err(e) => {
            return Err(e);
        },
    };
    Ok(gather(files, &keys, &order))
}

proof fn lemma_contains_chain(x: Seq<String>, y: Seq<String>, z: Seq<String>)
    requires
        forall|i: int| 0 <= i < x.len() ==> y.contains(#[trigger] x[i]),
        forall|j: int| 0 <= j < y.len() ==> z.contains(#[trigger] y[j]),
    ensures
        forall|i: int| 0 <= i < x.len() ==> z.contains(#[trigger] x[i]),
{
    assert forall|i: int| 0 <= i < x.len() implies z.contains(#[trigger] x[i]) by {
        let j = choose|j: int| 0 <= j < y.len() && y[j] == x[i];
        assert(z.contains(y[j]));
    }
}

proof fn lemma_prefix_agrees(ra: Seq<String>, rb: Seq<String>, t: int)
    requires
        strictly_ordered(ra),
        strictly_ordered(rb),
        ra.len() == rb.len(),
        forall|i: int| 0 <= i < ra.len() ==> rb.contains(#[trigger] ra[i]),
        forall|j: int| 0 <= j < rb.len() ==> ra.contains(#[trigger] rb[j]),
        0 <= t <= ra.len(),
    ensures
        forall|s: int| 0 <= s < t ==> ra[s] == rb[s],
    decreases t,
{
    if t > 0 {
        lemma_prefix_agrees(ra, rb, t - 1);
        let s = t - 1;
        assert(rb.contains(ra[s]));
        assert(ra.contains(rb[s]));
        let u = choose|u: int| 0 <= u < rb.len() && rb[u] == ra[s];
        let v = choose|v: int| 0 <= v < ra.len() && ra[v] == rb[s];
        if ra[s] != rb[s] {
            if u < s {
                assert(ra[u] == rb[u]);
                assert(key_of(ra[u]@)->0 < key_of(ra[s]@)->0);
            }
            if v < s {
                assert(ra[v] == rb[v]);
                assert(key_of(rb[v]@)->0 < key_of(rb[s]@)->0);
            }
            assert(key_of(rb[s]@)->0 < key_of(rb[u]@)->0);
            assert(key_of(ra[s]@)->0 < key_of(ra[v]@)->0);
        }
    }
}

/// The key order of a set of names does not depend on the order in which the
/// names were given: two inputs holding the same names have the same key order.
pub proof fn lemma_key_order_ignores_input_order(
    a: Seq<String>,
    b: Seq<String>,
    ra: Seq<String>,
    rb: Seq<String>,
)
    requires
        same_names(a, b),
        is_key_order_of(a, ra),
        is_key_order_of(b, rb),
    ensures
        ra == rb,
{
    lemma_contains_chain(ra, a, b);
    lemma_contains_chain(ra, b, rb);
    lemma_contains_chain(rb, b, a);
    lemma_contains_chain(rb, a, ra);
    lemma_prefix_agrees(ra, rb, ra.len() as int);
    assert(ra =~= rb);
}

} // verus!
