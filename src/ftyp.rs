//! The file-type box: a major brand, a minor version and the compatible brands.

use vstd::prelude::*;

use crate::codec::{be32, push_u32, read_u32, u32_be, FourCC};
use crate::error::ParseError;

verus! {

/// Whether `s` has the shape of a file-type body: two words, then whole words.
pub open spec fn spec_parse_ftyp(s: Seq<u8>) -> Result<(), ParseError> {
    if s.len() < 8 {
        Err(ParseError::TruncatedBox)
    } else if (s.len() - 8) % 4 != 0 {
        Err(ParseError::InvalidInput)
    } else {
        Ok(())
    }
}

/// The number of compatible brands in the file-type body `s`.
pub open spec fn spec_brand_count(s: Seq<u8>) -> int {
    (s.len() - 8) / 4
}

/// Compatible brand `k` of the file-type body `s`.
pub open spec fn spec_brand(s: Seq<u8>, k: int) -> u32 {
    be32(s, 8 + 4 * k)
}

/// Whether the file-type body `s` lists `b` among its compatible brands.
pub open spec fn spec_has_brand(s: Seq<u8>, b: u32) -> bool {
    exists|k: int| 0 <= k < spec_brand_count(s) && #[trigger] spec_brand(s, k) == b
}

/// A file-type box body.
pub struct FtypBox {
    data: Vec<u8>,
}

impl FtypBox {
    /// The bytes of the body.
    pub closed spec fn body(&self) -> Seq<u8> {
        self.data@
    }

    pub open spec fn wf(&self) -> bool {
        spec_parse_ftyp(self.body()) is Ok
    }

    /// Reads a file-type box body.
    pub fn parse(data: Vec<u8>) -> (r: Result<FtypBox, ParseError>)
        ensures
            match r {
                Ok(f) => f.body() == data@ && f.wf(),
                Err(e) => spec_parse_ftyp(data@) == Err::<(), ParseError>(e),
            },
    {
        if data.len() < 8 {
            return Err(ParseError::TruncatedBox);
        }
        if (data.len() - 8) % 4 != 0 {
            return Err(ParseError::InvalidInput);
        }
        Ok(FtypBox { data })
    }

    /// The body with the given brands and version.
    pub fn new(major_brand: FourCC, minor_version: u32, compatible_brands: &Vec<FourCC>) -> (r:
        FtypBox)
        requires
            compatible_brands@.len() <= (usize::MAX - 8) / 4,
        ensures
            r.wf(),
            be32(r.body(), 0) == major_brand.value,
            be32(r.body(), 4) == minor_version,
            spec_brand_count(r.body()) == compatible_brands@.len(),
            forall|k: int|
                0 <= k < compatible_brands@.len() ==> spec_brand(r.body(), k)
                    == #[trigger] compatible_brands@[k].value,
    {
        let mut data: Vec<u8> = Vec::new();
        push_u32(&mut data, major_brand.value);
        push_u32(&mut data, minor_version);
        let ghost head = data@;
        proof {
            assert(data@.subrange(0, 4) =~= u32_be(major_brand.value));
            crate::codec::lemma_be32_of_u32_be(major_brand.value, data@, 0);
            assert(data@.subrange(4, 8) =~= u32_be(minor_version));
            crate::codec::lemma_be32_of_u32_be(minor_version, data@, 4);
        }
        let mut i: usize = 0;
        while i < compatible_brands.len()
            invariant
                0 <= i <= compatible_brands@.len() <= (usize::MAX - 8) / 4,
                data@.len() == 8 + 4 * i,
                head.len() == 8,
                forall|j: int| 0 <= j < 8 ==> data@[j] == head[j],
                be32(head, 0) == major_brand.value,
                be32(head, 4) == minor_version,
                forall|k: int| 0 <= k < i ==> spec_brand(data@, k) == #[trigger] compatible_brands@[k].value,
            decreases compatible_brands@.len() - i,
        {
            let ghost before = data@;
            push_u32(&mut data, compatible_brands[i].value);
            proof {
                assert(data@.subrange(8 + 4 * i, 8 + 4 * i + 4) =~= u32_be(compatible_brands@[i as int].value));
                crate::codec::lemma_be32_of_u32_be(compatible_brands@[i as int].value, data@, 8 + 4 * i);
                assert forall|k: int| 0 <= k < i + 1 implies spec_brand(data@, k) == #[trigger] compatible_brands@[k].value by {
                    if k < i {
                        assert(data@[8 + 4 * k] == before[8 + 4 * k]);
                        assert(data@[8 + 4 * k + 1] == before[8 + 4 * k + 1]);
                        assert(data@[8 + 4 * k + 2] == before[8 + 4 * k + 2]);
                        assert(data@[8 + 4 * k + 3] == before[8 + 4 * k + 3]);
                    }
                }
            }
            i = i + 1;
        }
        proof {
            assert(be32(data@, 0) == be32(head, 0));
            assert(be32(data@, 4) == be32(head, 4));
            assert(((data@.len() - 8) as int) % 4 == 0) by (nonlinear_arith)
                requires data@.len() == 8 + 4 * i;
            assert(spec_brand_count(data@) == i) by (nonlinear_arith)
                requires data@.len() == 8 + 4 * i;
        }
        FtypBox { data }
    }

    /// The bytes of the body, taken out.
    pub fn into_data(self) -> (r: Vec<u8>)
        ensures
            r@ == self.body(),
    {
        self.data
    }

    /// The bytes of the body.
    pub fn data(&self) -> (r: &Vec<u8>)
        ensures
            r@ == self.body(),
    {
        &self.data
    }

    /// The major brand.
    pub fn major_brand(&self) -> (r: FourCC)
        requires
            self.wf(),
        ensures
            r.value == be32(self.body(), 0),
    {
        FourCC { value: read_u32(self.data.as_slice(), 0) }
    }

    /// The minor version.
    pub fn minor_version(&self) -> (r: u32)
        requires
            self.wf(),
        ensures
            r == be32(self.body(), 4),
    {
        read_u32(self.data.as_slice(), 4)
    }

    /// Whether `brand` is among the compatible brands.
    pub fn has_compatible_brand(&self, brand: FourCC) -> (r: bool)
        requires
            self.wf(),
        ensures
            r == spec_has_brand(self.body(), brand.value),
    {
        let n = self.data.len();
        let count = (n - 8) / 4;
        let mut k: usize = 0;
        while k < count
            invariant
                self.wf(),
                n == self.body().len(),
                count == spec_brand_count(self.body()),
                0 <= k <= count,
                forall|j: int| 0 <= j < k ==> #[trigger] spec_brand(self.body(), j) != brand.value,
            decreases count - k,
        {
            assert(8 + 4 * k + 4 <= n) by (nonlinear_arith)
                requires
                    k < count,
                    count == (n - 8) / 4,
                    n >= 8,
            ;
            if read_u32(self.data.as_slice(), 8 + 4 * k) == brand.value {
                assert(spec_brand(self.body(), k as int) == brand.value);
                return true;
            }
            k = k + 1;
        }
        false
    }
}

} // verus!
