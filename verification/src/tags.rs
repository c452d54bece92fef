//! How the variants of an enum get their discriminants: by default its position,
//! 0-indexed; a variant tagged `#[tag(N)]` gets `N` instead, and tags do not shift the
//! positions of the variants after it. Every discriminant must fit in a `u8`, and no
//! two variants may share one.
use vstd::prelude::*;

verus! {

/// The discriminant that variant `i` asks for: its tag where it has one, its position otherwise.
pub open spec fn wanted(tags: Seq<Option<u64>>, i: int) -> int {
    match tags[i] {
        Some(t) => t as int,
        None => i,
    }
}

/// Every variant before `n` asks for a discriminant that fits in a `u8`.
pub open spec fn fits_before(tags: Seq<Option<u64>>, n: int) -> bool {
    forall|k: int| 0 <= k < n ==> wanted(tags, k) <= 255
}

/// No two variants before `n` ask for the same discriminant.
pub open spec fn distinct_before(tags: Seq<Option<u64>>, n: int) -> bool {
    forall|i: int, j: int| 0 <= i < j < n ==> wanted(tags, i) != wanted(tags, j)
}

/// Why an enum's discriminants cannot be assigned.
#[derive(Debug, Clone, Copy, PartialEq, Eq, Structural)]
pub enum TagError {
    /// The variant at index `variant` asks for `wanted`, which does not fit in a `u8`.
    OutOfRange { variant: usize, wanted: u64 },
    /// The variants at indices `first` and `second` both ask for `discriminant`.
    Duplicate { first: usize, second: usize, discriminant: u8 },
}

/// Assigns the discriminants of an enum whose variant `i` carries the tag `tags[i]`,
/// if any. Reports the first variant, in order, whose discriminant does not fit in a
/// `u8`; failing that, the first variant whose discriminant an earlier one already
/// has, together with the first such earlier variant.
pub fn assign_discriminants(tags: &Vec<Option<u64>>) -> (r: Result<Vec<u8>, TagError>)
    ensures
        match r {
            Ok(d) => {
                &&& fits_before(tags@, tags@.len() as int)
                &&& distinct_before(tags@, tags@.len() as int)
                &&& d@.len() == tags@.len()
                &&& forall|i: int| 0 <= i < d@.len() ==> d@[i] == wanted(tags@, i)
            },
            Err(TagError::OutOfRange { variant, wanted: w }) => {
                &&& variant < tags@.len()
                &&& fits_before(tags@, variant as int)
                &&& w == wanted(tags@, variant as int)
                &&& w > 255
            },
            Err(TagError::Duplicate { first, second, discriminant }) => {
                &&& fits_before(tags@, tags@.len() as int)
                &&& first < second < tags@.len()
                &&& distinct_before(tags@, second as int)
                &&& forall|i: int| 0 <= i < first ==> wanted(tags@, i) != wanted(tags@, second as int)
                &&& wanted(tags@, first as int) == discriminant
                &&& wanted(tags@, second as int) == discriminant
            },
        },
{
    let n = tags.len();
    let mut d: Vec<u8> = Vec::new();
    let mut k: usize = 0;
    while k < n
        invariant
            k <= n,
            n == tags@.len(),
            fits_before(tags@, k as int),
            d@.len() == k,
            forall|i: int| 0 <= i < k ==> d@[i] == wanted(tags@, i),
        decreases n - k,
    {
        let w: u64 = match tags[k] {
            Some(t) => t,
            None => k as u64,
        };
        if w > 255 {
            return Err(TagError::OutOfRange { variant: k, wanted: w });
        }
        d.push(w as u8);
        k = k + 1;
    }
    let mut j: usize = 0;
    while j < n
        invariant
            j <= n,
            n == tags@.len(),
            fits_before(tags@, n as int),
            distinct_before(tags@, j as int),
            d@.len() == n,
            forall|i: int| 0 <= i < n ==> d@[i] == wanted(tags@, i),
        decreases n - j,
    {
        let mut i: usize = 0;
        while i < j
            invariant
                i <= j < n,
                n == tags@.len(),
                fits_before(tags@, n as int),
                distinct_before(tags@, j as int),
                d@.len() == n,
                forall|x: int| 0 <= x < n ==> d@[x] == wanted(tags@, x),
                forall|x: int| 0 <= x < i ==> wanted(tags@, x) != wanted(tags@, j as int),
            decreases j - i,
        {
            if d[i] == d[j] {
                return Err(TagError::Duplicate { first: i, second: j, discriminant: d[j] });
            }
            i = i + 1;
        }
        j = j + 1;
    }
    Ok(d)
}

} // verus!
